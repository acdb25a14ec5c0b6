//! The type universe of the inferencer: types, substitutions and contexts.

use vstd::prelude::*;
use vstd::string::*;
use crate::text::str_eq;

verus! {

/// The type constructors.
#[derive(PartialEq, Debug)]
pub enum TypeFunc {
    Func { input: Box<TType>, output: Box<TType> },
    Bool,
    Int,
}

/// A type: a variable, a constructor applied to its arguments, or a type
/// under a quantifier.
#[derive(PartialEq, Debug)]
pub enum TType {
    Variable(String),
    Application(TypeFunc),
    Quantifier { variable: String, inner: Box<TType> },
}

/// Mathematical model of [`TType`].
pub enum TypeView {
    Var(Seq<char>),
    Func(Box<TypeView>, Box<TypeView>),
    Bool,
    Int,
    Forall(Seq<char>, Box<TypeView>),
}

/// The model of a type.
pub open spec fn ttype_view(t: TType) -> TypeView
    decreases t,
{
    match t {
        TType::Variable(n) => TypeView::Var(n@),
        TType::Application(TypeFunc::Func { input, output }) => TypeView::Func(
            Box::new(ttype_view(*input)),
            Box::new(ttype_view(*output)),
        ),
        TType::Application(TypeFunc::Bool) => TypeView::Bool,
        TType::Application(TypeFunc::Int) => TypeView::Int,
        TType::Quantifier { variable, inner } => TypeView::Forall(
            variable@,
            Box::new(ttype_view(*inner)),
        ),
    }
}

/// The model of a constructor application.
pub open spec fn typefunc_view(f: TypeFunc) -> TypeView {
    match f {
        TypeFunc::Func { input, output } => TypeView::Func(
            Box::new(ttype_view(*input)),
            Box::new(ttype_view(*output)),
        ),
        TypeFunc::Bool => TypeView::Bool,
        TypeFunc::Int => TypeView::Int,
    }
}

impl View for TType {
    type V = TypeView;

    open spec fn view(&self) -> TypeView {
        ttype_view(*self)
    }
}

impl View for TypeFunc {
    type V = TypeView;

    open spec fn view(&self) -> TypeView {
        typefunc_view(*self)
    }
}

/// `a` with the names of `b` that it lacks behind it, in their order.
pub open spec fn merge_names(a: Seq<Seq<char>>, b: Seq<Seq<char>>) -> Seq<Seq<char>>
    decreases b.len(),
{
    if b.len() == 0 {
        a
    } else {
        let front = merge_names(a, b.drop_last());
        if front.contains(b.last()) {
            front
        } else {
            front.push(b.last())
        }
    }
}

/// `a` without the name `n`.
pub open spec fn without_name(a: Seq<Seq<char>>, n: Seq<char>) -> Seq<Seq<char>>
    decreases a.len(),
{
    if a.len() == 0 {
        a
    } else {
        let front = without_name(a.drop_last(), n);
        if a.last() == n {
            front
        } else {
            front.push(a.last())
        }
    }
}

impl TypeView {
    /// Whether the variable `n` stands anywhere in the type, bound or free.
    pub open spec fn mentions(self, n: Seq<char>) -> bool
        decreases self,
    {
        match self {
            TypeView::Var(m) => m == n,
            TypeView::Func(i, o) => i.mentions(n) || o.mentions(n),
            TypeView::Forall(_, inner) => inner.mentions(n),
            _ => false,
        }
    }

    /// The variables that occur in the type and that no enclosing
    /// quantifier binds.
    pub open spec fn free_vars(self) -> Set<Seq<char>>
        decreases self,
    {
        match self {
            TypeView::Var(n) => set![n],
            TypeView::Func(i, o) => i.free_vars().union(o.free_vars()),
            TypeView::Forall(v, inner) => inner.free_vars().remove(v),
            _ => Set::empty(),
        }
    }

    /// The free variables, each once, in the order of their first occurrence.
    pub open spec fn free_var_list(self) -> Seq<Seq<char>>
        decreases self,
    {
        match self {
            TypeView::Var(n) => seq![n],
            TypeView::Func(i, o) => merge_names(i.free_var_list(), o.free_var_list()),
            TypeView::Forall(v, inner) => without_name(inner.free_var_list(), v),
            _ => seq![],
        }
    }

    /// How the type is written in diagnostics.
    pub open spec fn text(self) -> Seq<char>
        decreases self,
    {
        match self {
            TypeView::Var(n) => n,
            TypeView::Func(i, o) => i.text() + " -> "@ + o.text(),
            TypeView::Bool => "bool"@,
            TypeView::Int => "int"@,
            TypeView::Forall(v, inner) => "\u{2200}"@ + v + " "@ + inner.text(),
        }
    }

    /// The type after the substitution `s`: every variable in the domain of
    /// `s` is replaced by what `s` maps it to.
    pub open spec fn apply(self, s: Map<Seq<char>, TypeView>) -> TypeView
        decreases self,
    {
        match self {
            TypeView::Var(n) => if s.dom().contains(n) {
                s[n]
            } else {
                self
            },
            TypeView::Func(i, o) => TypeView::Func(Box::new(i.apply(s)), Box::new(o.apply(s))),
            TypeView::Forall(v, inner) => TypeView::Forall(v, Box::new(inner.apply(s))),
            _ => self,
        }
    }
}

/// The context after the substitution `s`: `s` is applied to every type
/// that the context holds.
pub open spec fn apply_context(
    ctx: Map<Seq<char>, TypeView>,
    s: Map<Seq<char>, TypeView>,
) -> Map<Seq<char>, TypeView> {
    ctx.map_values(|t: TypeView| t.apply(s))
}

/// The composition `outer` after `inner`: every type that `inner` maps to is
/// put through `outer`, and `outer` maps what `inner` leaves alone.
pub open spec fn compose(
    outer: Map<Seq<char>, TypeView>,
    inner: Map<Seq<char>, TypeView>,
) -> Map<Seq<char>, TypeView> {
    outer.union_prefer_right(inner.map_values(|t: TypeView| t.apply(outer)))
}

/// Applying a composition is applying its two parts in turn.
pub proof fn lemma_apply_compose(
    outer: Map<Seq<char>, TypeView>,
    inner: Map<Seq<char>, TypeView>,
    t: TypeView,
)
    ensures
        t.apply(compose(outer, inner)) == t.apply(inner).apply(outer),
    decreases t,
{
    match t {
        TypeView::Func(i, o) => {
            lemma_apply_compose(outer, inner, *i);
            lemma_apply_compose(outer, inner, *o);
        },
        TypeView::Forall(_, body) => {
            lemma_apply_compose(outer, inner, *body);
        },
        _ => {},
    }
}

/// The empty substitution changes no type.
pub proof fn lemma_apply_empty(t: TypeView)
    ensures
        t.apply(Map::empty()) == t,
    decreases t,
{
    match t {
        TypeView::Func(i, o) => {
            lemma_apply_empty(*i);
            lemma_apply_empty(*o);
        },
        TypeView::Forall(_, body) => {
            lemma_apply_empty(*body);
        },
        _ => {},
    }
}

/// The models of a list of names, in order.
pub open spec fn names_of(v: Seq<String>) -> Seq<Seq<char>> {
    v.map_values(|s: String| s@)
}

/// What the two merged lists hold, and that merging keeps a list free of
/// repetitions.
pub proof fn lemma_merge_names(a: Seq<Seq<char>>, b: Seq<Seq<char>>)
    ensures
        forall|n: Seq<char>| #[trigger]
            merge_names(a, b).contains(n) <==> a.contains(n) || b.contains(n),
        a.no_duplicates() ==> merge_names(a, b).no_duplicates(),
        a.len() <= merge_names(a, b).len(),
        merge_names(a, b).take(a.len() as int) == a,
    decreases b.len(),
{
    if b.len() > 0 {
        let front = merge_names(a, b.drop_last());
        lemma_merge_names(a, b.drop_last());
        assert forall|n: Seq<char>| #[trigger]
            merge_names(a, b).contains(n) <==> a.contains(n) || b.contains(n) by {
            if b.contains(n) {
                let i = choose|i: int| 0 <= i < b.len() && b[i] == n;
                if i < b.len() - 1 {
                    assert(b.drop_last()[i] == n);
                    assert(b.drop_last().contains(n));
                    assert(front.contains(n));
                    let k = choose|k: int| 0 <= k < front.len() && front[k] == n;
                    assert(merge_names(a, b)[k] == n);
                } else if !front.contains(b.last()) {
                    assert(front.push(b.last()).last() == n);
                }
            }
            if merge_names(a, b).contains(n) && !front.contains(n) {
                assert(b.last() == n);
            }
            if front.contains(n) {
                let i = choose|i: int| 0 <= i < front.len() && front[i] == n;
                assert(merge_names(a, b)[i] == n);
                if b.drop_last().contains(n) {
                    let j = choose|j: int| 0 <= j < b.drop_last().len() && b.drop_last()[j] == n;
                    assert(b[j] == n);
                }
            }
        }
        assert(merge_names(a, b).take(a.len() as int) =~= front.take(a.len() as int));
    } else {
        assert(a.take(a.len() as int) =~= a);
    }
}

/// What is left of a list without a name.
pub proof fn lemma_without_name(a: Seq<Seq<char>>, n: Seq<char>)
    ensures
        forall|m: Seq<char>| #[trigger]
            without_name(a, n).contains(m) <==> a.contains(m) && m != n,
        a.no_duplicates() ==> without_name(a, n).no_duplicates(),
        without_name(a, n).len() <= a.len(),
    decreases a.len(),
{
    if a.len() > 0 {
        let front = without_name(a.drop_last(), n);
        lemma_without_name(a.drop_last(), n);
        assert forall|m: Seq<char>| #[trigger]
            without_name(a, n).contains(m) <==> a.contains(m) && m != n by {
            if a.contains(m) && m != n {
                let i = choose|i: int| 0 <= i < a.len() && a[i] == m;
                if i < a.len() - 1 {
                    assert(a.drop_last()[i] == m);
                    assert(a.drop_last().contains(m));
                    assert(front.contains(m));
                    let j = choose|j: int| 0 <= j < front.len() && front[j] == m;
                    assert(without_name(a, n)[j] == m);
                } else {
                    assert(front.push(a.last()).last() == m);
                }
            }
            if without_name(a, n).contains(m) {
                if front.contains(m) {
                    assert(a.drop_last().contains(m));
                    let j = choose|j: int|
                        0 <= j < a.drop_last().len() && a.drop_last()[j] == m;
                    assert(a[j] == m);
                } else {
                    assert(a.last() == m);
                    assert(a[a.len() - 1] == m);
                }
            }
        }
        if a.no_duplicates() {
            assert(a.drop_last().no_duplicates());
            if a.last() != n {
                assert(!front.contains(a.last())) by {
                    if a.drop_last().contains(a.last()) {
                        let j = choose|j: int|
                            0 <= j < a.drop_last().len() && a.drop_last()[j] == a.last();
                        assert(a[j] == a[a.len() - 1]);
                    }
                }
            }
        }
    }
}

/// The list of free variables holds the free variables, each once.
pub proof fn lemma_free_var_list(t: TypeView)
    ensures
        t.free_var_list().no_duplicates(),
        forall|n: Seq<char>| #[trigger] t.free_var_list().contains(n) <==> t.free_vars().contains(n),
        t.free_vars().finite(),
    decreases t,
{
    match t {
        TypeView::Var(n) => {
            assert(seq![n][0] == n);
        },
        TypeView::Func(i, o) => {
            lemma_free_var_list(*i);
            lemma_free_var_list(*o);
            lemma_merge_names(i.free_var_list(), o.free_var_list());
        },
        TypeView::Forall(v, inner) => {
            lemma_free_var_list(*inner);
            lemma_without_name(inner.free_var_list(), v);
        },
        _ => {},
    }
}

/// Whether `v` holds the name `n`.
pub fn has_name(v: &Vec<String>, n: &str) -> (b: bool)
    ensures
        b == names_of(v@).contains(n@),
{
    let mut i: usize = 0;
    while i < v.len()
        invariant
            i <= v.len(),
            forall|j: int| 0 <= j < i ==> v@[j]@ != n@,
        decreases v.len() - i,
    {
        if str_eq(v[i].as_str(), n) {
            assert(names_of(v@)[i as int] == n@);
            return true;
        }
        i += 1;
    }
    false
}

/// Puts the names of `more` that `acc` lacks behind it.
pub fn merge_into(acc: &mut Vec<String>, more: &Vec<String>)
    ensures
        names_of(final(acc)@) == merge_names(names_of(old(acc)@), names_of(more@)),
{
    let ghost a = names_of(acc@);
    let mut i: usize = 0;
    while i < more.len()
        invariant
            i <= more.len(),
            names_of(acc@) == merge_names(a, names_of(more@).take(i as int)),
        decreases more.len() - i,
    {
        proof {
            assert(names_of(more@).take(i + 1).drop_last() == names_of(more@).take(i as int));
            assert(names_of(more@).take(i + 1).last() == more@[i as int]@);
        }
        if !has_name(acc, more[i].as_str()) {
            acc.push(more[i].clone());
            assert(names_of(acc@) =~= merge_names(a, names_of(more@).take(i as int)).push(
                more@[i as int]@,
            ));
        }
        i += 1;
    }
    proof {
        assert(names_of(more@).take(more.len() as int) == names_of(more@));
    }
}

/// The names of `v` but `n`, in their order.
pub fn remove_name(v: &Vec<String>, n: &str) -> (r: Vec<String>)
    ensures
        names_of(r@) == without_name(names_of(v@), n@),
{
    let mut r: Vec<String> = Vec::new();
    let mut i: usize = 0;
    assert(names_of(v@).take(0) =~= Seq::<Seq<char>>::empty());
    assert(names_of(r@) =~= Seq::<Seq<char>>::empty());
    while i < v.len()
        invariant
            i <= v.len(),
            names_of(r@) == without_name(names_of(v@).take(i as int), n@),
        decreases v.len() - i,
    {
        proof {
            assert(names_of(v@).take(i + 1).drop_last() == names_of(v@).take(i as int));
            assert(names_of(v@).take(i + 1).last() == v@[i as int]@);
        }
        if !str_eq(v[i].as_str(), n) {
            r.push(v[i].clone());
            assert(names_of(r@) =~= without_name(names_of(v@).take(i as int), n@).push(
                v@[i as int]@,
            ));
        }
        i += 1;
    }
    proof {
        assert(names_of(v@).take(v.len() as int) == names_of(v@));
    }
    r
}

impl Clone for TypeFunc {
    fn clone(&self) -> (r: Self)
        ensures
            r@ == self@,
        decreases self,
    {
        match self {
            TypeFunc::Func { input, output } => TypeFunc::Func {
                input: Box::new((**input).clone()),
                output: Box::new((**output).clone()),
            },
            TypeFunc::Bool => TypeFunc::Bool,
            TypeFunc::Int => TypeFunc::Int,
        }
    }
}

impl Clone for TType {
    fn clone(&self) -> (r: Self)
        ensures
            r@ == self@,
        decreases self,
    {
        match self {
            TType::Variable(n) => TType::Variable(n.clone()),
            TType::Application(f) => TType::Application(f.clone()),
            TType::Quantifier { variable, inner } => TType::Quantifier {
                variable: variable.clone(),
                inner: Box::new((**inner).clone()),
            },
        }
    }
}

impl TypeFunc {
    /// The constructor application as text.
    pub fn text(&self) -> (s: String)
        ensures
            s@ == self@.text(),
        decreases self,
    {
        match self {
            TypeFunc::Func { input, output } => {
                let mut s = input.text();
                s.append(" -> ");
                s.append(output.text().as_str());
                s
            },
            TypeFunc::Bool => String::from_str("bool"),
            TypeFunc::Int => String::from_str("int"),
        }
    }
}

impl TType {
    /// Whether `other` is a variable that stands somewhere in `self`.
    pub fn contains(&self, other: &TType) -> (b: bool)
        ensures
            b == (other@ matches TypeView::Var(n) && self@.mentions(n)),
        decreases self,
    {
        match other {
            TType::Variable(n) => match self {
                TType::Variable(name) => *name == *n,
                TType::Quantifier { variable: _, inner } => inner.contains(other),
                TType::Application(f) => match f {
                    TypeFunc::Func { input, output } => input.contains(other) || output.contains(
                        other,
                    ),
                    _ => false,
                },
            },
            _ => false,
        }
    }

    /// The type as text.
    pub fn text(&self) -> (s: String)
        ensures
            s@ == self@.text(),
        decreases self,
    {
        match self {
            TType::Variable(v) => v.clone(),
            TType::Application(f) => f.text(),
            TType::Quantifier { variable, inner } => {
                let mut s = String::from_str("\u{2200}");
                s.append(variable.as_str());
                s.append(" ");
                s.append(inner.text().as_str());
                s
            },
        }
    }
}

/// One entry of a map from names to types.
#[derive(Debug)]
pub struct Binding {
    pub name: String,
    pub ty: TType,
}

impl Clone for Binding {
    fn clone(&self) -> (r: Self)
        ensures
            r.name@ == self.name@,
            r.ty@ == self.ty@,
    {
        Binding { name: self.name.clone(), ty: self.ty.clone() }
    }
}

/// The map that a list of entries stands for. Of two entries with one name
/// the later one counts.
pub open spec fn bindings_map(es: Seq<Binding>) -> Map<Seq<char>, TypeView>
    decreases es.len(),
{
    if es.len() == 0 {
        Map::empty()
    } else {
        bindings_map(es.drop_last()).insert(es.last().name@, es.last().ty@)
    }
}

/// Index of the last entry with the name `k`, or -1 where there is none.
pub open spec fn last_index(es: Seq<Binding>, k: Seq<char>) -> int
    decreases es.len(),
{
    if es.len() == 0 {
        -1
    } else if es.last().name@ == k {
        es.len() - 1
    } else {
        last_index(es.drop_last(), k)
    }
}

/// The map of a list of entries holds, for each name, the last entry with
/// that name.
pub proof fn lemma_bindings_map(es: Seq<Binding>, k: Seq<char>)
    ensures
        bindings_map(es).dom().finite(),
        -1 <= last_index(es, k) < es.len(),
        bindings_map(es).dom().contains(k) <==> last_index(es, k) >= 0,
        last_index(es, k) >= 0 ==> es[last_index(es, k)].name@ == k && bindings_map(es)[k]
            == es[last_index(es, k)].ty@,
        forall|j: int| last_index(es, k) < j < es.len() ==> es[j].name@ != k,
    decreases es.len(),
{
    if es.len() > 0 {
        lemma_bindings_map(es.drop_last(), k);
        assert forall|j: int| last_index(es, k) < j < es.len() implies es[j].name@ != k by {
            if j < es.len() - 1 {
                assert(es.drop_last()[j] == es[j]);
            }
        }
    }
}

/// The free variables of a context: those free in a type that it maps to.
pub open spec fn context_free_vars(m: Map<Seq<char>, TypeView>) -> Set<Seq<char>> {
    Set::new(
        |n: Seq<char>|
            exists|k: Seq<char>| m.dom().contains(k) && #[trigger] m[k].free_vars().contains(n),
    )
}

/// A finite map from names to types.
#[derive(Debug)]
pub struct TypeMap {
    entries: Vec<Binding>,
}

/// What the inferencer knows of the identifiers in scope.
pub type Context = TypeMap;

impl View for TypeMap {
    type V = Map<Seq<char>, TypeView>;

    closed spec fn view(&self) -> Map<Seq<char>, TypeView> {
        bindings_map(self.entries@)
    }
}

impl TypeMap {
    /// The empty map.
    pub fn new() -> (m: Self)
        ensures
            m@ == Map::<Seq<char>, TypeView>::empty(),
    {
        TypeMap { entries: Vec::new() }
    }

    fn find_last(&self, k: &str) -> (r: Option<usize>)
        ensures
            match r {
                Some(i) => i as int == last_index(self.entries@, k@),
                None => last_index(self.entries@, k@) < 0,
            },
    {
        let mut i: usize = self.entries.len();
        proof {
            assert(self.entries@.take(i as int) == self.entries@);
        }
        while i > 0
            invariant
                i <= self.entries.len(),
                last_index(self.entries@, k@) == last_index(self.entries@.take(i as int), k@),
            decreases i,
        {
            proof {
                assert(self.entries@.take(i as int).drop_last() == self.entries@.take(i - 1));
                assert(self.entries@.take(i as int).last() == self.entries@[i - 1]);
            }
            i -= 1;
            if str_eq(self.entries[i].name.as_str(), k) {
                return Some(i);
            }
        }
        None
    }

    /// The type that `k` is mapped to.
    pub fn get(&self, k: &str) -> (r: Option<&TType>)
        ensures
            match r {
                Some(t) => self@.dom().contains(k@) && t@ == self@[k@],
                None => !self@.dom().contains(k@),
            },
    {
        proof {
            lemma_bindings_map(self.entries@, k@);
        }
        match self.find_last(k) {
            Some(i) => Some(&self.entries[i].ty),
            None => None,
        }
    }

    /// Maps `k` to `v`, and returns what `k` was mapped to before.
    pub fn insert(&mut self, k: String, v: TType) -> (r: Option<TType>)
        ensures
            final(self)@ == old(self)@.insert(k@, v@),
            match r {
                Some(t) => old(self)@.dom().contains(k@) && t@ == old(self)@[k@],
                None => !old(self)@.dom().contains(k@),
            },
    {
        let ghost before = self.entries@;
        let previous = match self.get(k.as_str()) {
            Some(t) => Some(t.clone()),
            None => None,
        };
        self.entries.push(Binding { name: k, ty: v });
        proof {
            assert(self.entries@.drop_last() == before);
        }
        previous
    }

    /// Whether the entry at `i` is the one that counts for its name.
    fn is_live(&self, i: usize) -> (b: bool)
        requires
            i < self.entries.len(),
        ensures
            b == (last_index(self.entries@, self.entries@[i as int].name@) == i),
    {
        match self.find_last(self.entries[i].name.as_str()) {
            Some(j) => j == i,
            None => false,
        }
    }

    /// Whether `n` is free in a type that the map holds.
    pub fn has_free(&self, n: &str) -> (b: bool)
        ensures
            b == context_free_vars(self@).contains(n@),
    {
        let mut i: usize = 0;
        while i < self.entries.len()
            invariant
                i <= self.entries.len(),
                forall|j: int|
                    0 <= j < i && last_index(self.entries@, #[trigger] self.entries@[j].name@) == j
                        ==> !self.entries@[j].ty@.free_vars().contains(n@),
            decreases self.entries.len() - i,
        {
            if self.is_live(i) {
                let free = self.entries[i].ty.free_variables();
                proof {
                    lemma_free_var_list(self.entries@[i as int].ty@);
                }
                if has_name(&free, n) {
                    proof {
                        let k = self.entries@[i as int].name@;
                        lemma_bindings_map(self.entries@, k);
                        assert(self@.dom().contains(k) && self@[k].free_vars().contains(n@));
                    }
                    return true;
                }
            }
            i += 1;
        }
        proof {
            if context_free_vars(self@).contains(n@) {
                let k = choose|k: Seq<char>|
                    self@.dom().contains(k) && #[trigger] self@[k].free_vars().contains(n@);
                lemma_bindings_map(self.entries@, k);
                let j = last_index(self.entries@, k);
                assert(last_index(self.entries@, self.entries@[j].name@) == j);
            }
        }
        false
    }
}

impl Clone for TypeMap {
    fn clone(&self) -> (r: Self)
        ensures
            r@ == self@,
    {
        let mut entries: Vec<Binding> = Vec::new();
        let mut i: usize = 0;
        while i < self.entries.len()
            invariant
                i <= self.entries.len(),
                entries.len() == i,
                forall|j: int|
                    0 <= j < i ==> entries@[j].name@ == self.entries@[j].name@ && entries@[j].ty@
                        == self.entries@[j].ty@,
            decreases self.entries.len() - i,
        {
            entries.push(self.entries[i].clone());
            i += 1;
        }
        proof {
            lemma_same_bindings(entries@, self.entries@);
        }
        TypeMap { entries }
    }
}

/// Lists with the same names and types, entry by entry, stand for one map.
pub proof fn lemma_same_bindings(a: Seq<Binding>, b: Seq<Binding>)
    requires
        a.len() == b.len(),
        forall|j: int| 0 <= j < a.len() ==> a[j].name@ == b[j].name@ && a[j].ty@ == b[j].ty@,
    ensures
        bindings_map(a) == bindings_map(b),
    decreases a.len(),
{
    if a.len() > 0 {
        lemma_same_bindings(a.drop_last(), b.drop_last());
    }
}

/// A substitution: a finite map from type variables to types.
#[derive(Debug)]
pub struct Substitution(TypeMap);

impl View for Substitution {
    type V = Map<Seq<char>, TypeView>;

    closed spec fn view(&self) -> Map<Seq<char>, TypeView> {
        self.0@
    }
}

/// The substitution that a list of pairs builds up, a later pair replacing an
/// earlier one for the same variable.
pub open spec fn pairs_map(cases: Seq<(String, TType)>) -> Map<Seq<char>, TypeView>
    decreases cases.len(),
{
    if cases.len() == 0 {
        Map::empty()
    } else {
        pairs_map(cases.drop_last()).insert(cases.last().0@, cases.last().1@)
    }
}

/// What has free variables.
pub trait FreeVar {
    /// The free variables.
    spec fn free(&self) -> Set<Seq<char>>;

    /// The free variables, each once.
    fn free_variables(&self) -> (r: Vec<String>)
        ensures
            names_of(r@).no_duplicates(),
            forall|n: Seq<char>| #[trigger] names_of(r@).contains(n) <==> self.free().contains(n),
    ;
}

/// What a substitution can be applied to.
pub trait Substitutable: Sized {
    /// Whether `r` is `self` after the substitution `s`.
    spec fn substituted(&self, s: &Substitution, r: &Self) -> bool;

    /// `self` after the substitution `s`.
    fn apply(&self, s: &Substitution) -> (r: Self)
        ensures
            self.substituted(s, &r),
    ;
}

impl Substitution {
    /// The empty substitution.
    pub fn new() -> (s: Self)
        ensures
            s@ == Map::<Seq<char>, TypeView>::empty(),
    {
        Substitution(TypeMap::new())
    }

    /// The substitution that holds the given pairs.
    pub fn from(cases: Vec<(String, TType)>) -> (s: Self)
        ensures
            s@ == pairs_map(cases@),
    {
        let mut map = TypeMap::new();
        let mut i: usize = 0;
        assert(cases@.take(0) =~= Seq::<(String, TType)>::empty());
        while i < cases.len()
            invariant
                i <= cases.len(),
                map@ == pairs_map(cases@.take(i as int)),
            decreases cases.len() - i,
        {
            proof {
                assert(cases@.take(i + 1).drop_last() == cases@.take(i as int));
                assert(cases@.take(i + 1).last() == cases@[i as int]);
            }
            map.insert(cases[i].0.clone(), cases[i].1.clone());
            i += 1;
        }
        proof {
            assert(cases@.take(cases.len() as int) == cases@);
        }
        Substitution(map)
    }

    /// `v` after this substitution.
    pub fn apply<T: Substitutable>(&self, v: &T) -> (r: T)
        ensures
            v.substituted(self, &r),
    {
        v.apply(self)
    }

    /// Maps the variable `k` to `v`, and returns what `k` was mapped to before.
    pub fn insert(&mut self, k: String, v: TType) -> (r: Option<TType>)
        ensures
            final(self)@ == old(self)@.insert(k@, v@),
            match r {
                Some(t) => old(self)@.dom().contains(k@) && t@ == old(self)@[k@],
                None => !old(self)@.dom().contains(k@),
            },
    {
        self.0.insert(k, v)
    }

    /// The type that the variable `k` is mapped to.
    pub fn get(&self, k: &str) -> (r: Option<&TType>)
        ensures
            match r {
                Some(t) => self@.dom().contains(k@) && t@ == self@[k@],
                None => !self@.dom().contains(k@),
            },
    {
        self.0.get(k)
    }
}

impl FreeVar for TType {
    open spec fn free(&self) -> Set<Seq<char>> {
        self@.free_vars()
    }

    fn free_variables(&self) -> (r: Vec<String>)
        ensures
            names_of(r@) == self@.free_var_list(),
        decreases self,
    {
        proof {
            lemma_free_var_list(self@);
        }
        match self {
            TType::Variable(name) => {
                let mut r: Vec<String> = Vec::new();
                r.push(name.clone());
                assert(names_of(r@) =~= seq![name@]);
                r
            },
            TType::Application(f) => match f {
                TypeFunc::Func { input, output } => {
                    let mut r = input.free_variables();
                    let more = output.free_variables();
                    merge_into(&mut r, &more);
                    r
                },
                _ => {
                    let r: Vec<String> = Vec::new();
                    assert(names_of(r@) =~= Seq::<Seq<char>>::empty());
                    r
                },
            },
            TType::Quantifier { variable, inner } => {
                let all = inner.free_variables();
                remove_name(&all, variable.as_str())
            },
        }
    }
}

impl FreeVar for TypeMap {
    open spec fn free(&self) -> Set<Seq<char>> {
        context_free_vars(self@)
    }

    fn free_variables(&self) -> (r: Vec<String>) {
        let mut r: Vec<String> = Vec::new();
        let mut i: usize = 0;
        assert(names_of(r@) =~= Seq::<Seq<char>>::empty());
        while i < self.entries.len()
            invariant
                i <= self.entries.len(),
                names_of(r@).no_duplicates(),
                forall|n: Seq<char>| #[trigger]
                    names_of(r@).contains(n) <==> exists|j: int|
                        0 <= j < i && last_index(self.entries@, self.entries@[j].name@) == j
                            && self.entries@[j].ty@.free_vars().contains(n),
            decreases self.entries.len() - i,
        {
            if self.is_live(i) {
                let more = self.entries[i].ty.free_variables();
                let ghost before = names_of(r@);
                proof {
                    lemma_free_var_list(self.entries@[i as int].ty@);
                    lemma_merge_names(before, names_of(more@));
                }
                merge_into(&mut r, &more);
                proof {
                    assert forall|n: Seq<char>| #[trigger]
                        names_of(r@).contains(n) <==> exists|j: int|
                            0 <= j < i + 1 && last_index(self.entries@, self.entries@[j].name@) == j
                                && self.entries@[j].ty@.free_vars().contains(n) by {
                        if names_of(r@).contains(n) {
                            if before.contains(n) {
                                let j = choose|j: int|
                                    0 <= j < i && last_index(
                                        self.entries@,
                                        self.entries@[j].name@,
                                    ) == j && self.entries@[j].ty@.free_vars().contains(n);
                                assert(0 <= j < i + 1);
                            } else {
                                assert(self.entries@[i as int].ty@.free_vars().contains(n));
                            }
                        }
                        if exists|j: int|
                            0 <= j < i + 1 && last_index(self.entries@, self.entries@[j].name@) == j
                                && self.entries@[j].ty@.free_vars().contains(n) {
                            let j = choose|j: int|
                                0 <= j < i + 1 && last_index(
                                    self.entries@,
                                    self.entries@[j].name@,
                                ) == j && self.entries@[j].ty@.free_vars().contains(n);
                            if j < i {
                                assert(before.contains(n));
                            } else {
                                assert(names_of(more@).contains(n));
                            }
                        }
                    }
                }
            } else {
                proof {
                    assert forall|n: Seq<char>| #[trigger]
                        names_of(r@).contains(n) <==> exists|j: int|
                            0 <= j < i + 1 && last_index(self.entries@, self.entries@[j].name@) == j
                                && self.entries@[j].ty@.free_vars().contains(n) by {
                        if names_of(r@).contains(n) {
                            let j = choose|j: int|
                                0 <= j < i && last_index(self.entries@, self.entries@[j].name@)
                                    == j && self.entries@[j].ty@.free_vars().contains(n);
                            assert(0 <= j < i + 1);
                        }
                    }
                }
            }
            i += 1;
        }
        proof {
            assert forall|n: Seq<char>| #[trigger]
                names_of(r@).contains(n) <==> self.free().contains(n) by {
                if names_of(r@).contains(n) {
                    let j = choose|j: int|
                        0 <= j < self.entries.len() && last_index(
                            self.entries@,
                            self.entries@[j].name@,
                        ) == j && self.entries@[j].ty@.free_vars().contains(n);
                    let k = self.entries@[j].name@;
                    lemma_bindings_map(self.entries@, k);
                    assert(self@.dom().contains(k) && self@[k].free_vars().contains(n));
                }
                if self.free().contains(n) {
                    let k = choose|k: Seq<char>|
                        self@.dom().contains(k) && #[trigger] self@[k].free_vars().contains(n);
                    lemma_bindings_map(self.entries@, k);
                    let j = last_index(self.entries@, k);
                    assert(last_index(self.entries@, self.entries@[j].name@) == j);
                }
            }
        }
        r
    }
}

impl Substitutable for TType {
    open spec fn substituted(&self, s: &Substitution, r: &Self) -> bool {
        r@ == self@.apply(s@)
    }

    fn apply(&self, s: &Substitution) -> (r: Self)
        decreases self,
    {
        match self {
            TType::Variable(name) => match s.get(name.as_str()) {
                Some(to) => to.clone(),
                None => TType::Variable(name.clone()),
            },
            TType::Application(func) => match func {
                TypeFunc::Func { input, output } => TType::Application(
                    TypeFunc::Func {
                        input: Box::new(input.apply(s)),
                        output: Box::new(output.apply(s)),
                    },
                ),
                _ => self.clone(),
            },
            TType::Quantifier { variable, inner } => TType::Quantifier {
                variable: variable.clone(),
                inner: Box::new(inner.apply(s)),
            },
        }
    }
}

impl Substitutable for TypeMap {
    open spec fn substituted(&self, s: &Substitution, r: &Self) -> bool {
        r@ == apply_context(self@, s@)
    }

    fn apply(&self, s: &Substitution) -> (r: Self) {
        let mut entries: Vec<Binding> = Vec::new();
        let mut i: usize = 0;
        while i < self.entries.len()
            invariant
                i <= self.entries.len(),
                entries.len() == i,
                forall|j: int|
                    0 <= j < i ==> entries@[j].name@ == self.entries@[j].name@ && entries@[j].ty@
                        == self.entries@[j].ty@.apply(s@),
            decreases self.entries.len() - i,
        {
            entries.push(
                Binding { name: self.entries[i].name.clone(), ty: self.entries[i].ty.apply(s) },
            );
            i += 1;
        }
        proof {
            lemma_mapped_bindings(entries@, self.entries@, s@);
        }
        TypeMap { entries }
    }
}

/// Applying a substitution to every type of a list of entries applies it to
/// every value of the map.
pub proof fn lemma_mapped_bindings(a: Seq<Binding>, b: Seq<Binding>, s: Map<Seq<char>, TypeView>)
    requires
        a.len() == b.len(),
        forall|j: int|
            0 <= j < a.len() ==> a[j].name@ == b[j].name@ && a[j].ty@ == b[j].ty@.apply(s),
    ensures
        bindings_map(a) == apply_context(bindings_map(b), s),
    decreases a.len(),
{
    if a.len() > 0 {
        lemma_mapped_bindings(a.drop_last(), b.drop_last(), s);
        assert(bindings_map(a) =~= apply_context(bindings_map(b), s));
    } else {
        assert(bindings_map(a) =~= apply_context(bindings_map(b), s));
    }
}

impl Substitutable for Substitution {
    /// `r` is `self` after `s`: the composition of the two.
    open spec fn substituted(&self, s: &Substitution, r: &Self) -> bool {
        r@ == compose(self@, s@)
    }

    fn apply(&self, s: &Substitution) -> (r: Self) {
        let mut map = self.0.clone();
        let mut i: usize = 0;
        let ghost f = |t: TypeView| t.apply(self@);
        proof {
            assert(s.0.entries@.take(0) =~= Seq::<Binding>::empty());
            assert(map@ =~= self@.union_prefer_right(
                bindings_map(s.0.entries@.take(0)).map_values(f),
            ));
        }
        while i < s.0.entries.len()
            invariant
                i <= s.0.entries.len(),
                f == |t: TypeView| t.apply(self@),
                map@ == self@.union_prefer_right(
                    bindings_map(s.0.entries@.take(i as int)).map_values(f),
                ),
            decreases s.0.entries.len() - i,
        {
            proof {
                assert(s.0.entries@.take(i + 1).drop_last() == s.0.entries@.take(i as int));
                assert(s.0.entries@.take(i + 1).last() == s.0.entries@[i as int]);
            }
            let ty = s.0.entries[i].ty.apply(self);
            let ghost before = map@;
            map.insert(s.0.entries[i].name.clone(), ty);
            proof {
                assert(map@ =~= self@.union_prefer_right(
                    bindings_map(s.0.entries@.take(i + 1)).map_values(f),
                ));
            }
            i += 1;
        }
        proof {
            assert(s.0.entries@.take(s.0.entries.len() as int) == s.0.entries@);
        }
        Substitution(map)
    }
}

} // verus!
