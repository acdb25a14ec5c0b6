//! Lowering: the concrete syntax tree to the abstract syntax tree.

use vstd::prelude::*;
use crate::config::Config;
use crate::language::ast::{Ast, AstView};
use crate::language::cst::{Child, ChildView, Tree, TreeKind, TreeView};
use crate::language::token::{Token, TokenView};
use crate::phase::phase::{Phase, PhaseResult};

verus! {

/// The phase that lowers concrete syntax trees.
pub struct AstBuilder;

/// The token of a `Name` node: the node must hold that token and nothing else.
pub open spec fn name_token(c: ChildView) -> Option<TokenView> {
    match c {
        ChildView::Tree(t) => if t.kind == TreeKind::Name && t.children.len() == 1 {
            match t.children[0] {
                ChildView::Token(token) => Some(token),
                _ => None,
            }
        } else {
            None
        },
        _ => None,
    }
}

/// The expression that a node stands for. Each kind of node is read by the
/// places of its children: a token where the grammar has a token, a node
/// where it has a node, and no child more or less. A node that does not
/// have this shape, or whose kind stands for no expression, lowers to
/// `Error`. Parentheses leave no trace.
pub open spec fn lower_spec(tree: TreeView) -> AstView
    decreases tree,
{
    let c = tree.children;
    match tree.kind {
        TreeKind::File => if c.len() == 1 && c[0] is Tree {
            lower_spec(c[0]->Tree_0)
        } else {
            AstView::Error
        },
        TreeKind::Expr => if c.len() == 3 && c[0] is Token && c[1] is Tree && c[2] is Token {
            lower_spec(c[1]->Tree_0)
        } else {
            AstView::Error
        },
        TreeKind::Literal => if c.len() == 1 && c[0] is Token {
            AstView::Literal(c[0]->Token_0)
        } else {
            AstView::Error
        },
        TreeKind::Name => if c.len() == 1 && c[0] is Token {
            AstView::Name(c[0]->Token_0)
        } else {
            AstView::Error
        },
        TreeKind::Binary => if c.len() == 3 && c[0] is Tree && c[1] is Token && c[2] is Tree {
            AstView::BinaryOp(
                c[1]->Token_0,
                Box::new(lower_spec(c[0]->Tree_0)),
                Box::new(lower_spec(c[2]->Tree_0)),
            )
        } else {
            AstView::Error
        },
        TreeKind::Application => if c.len() == 2 && c[0] is Tree && c[1] is Tree {
            AstView::Application(
                Box::new(lower_spec(c[0]->Tree_0)),
                Box::new(lower_spec(c[1]->Tree_0)),
            )
        } else {
            AstView::Error
        },
        TreeKind::Abstraction => if c.len() == 4 && c[0] is Token && name_token(c[1]) is Some
            && c[2] is Token && c[3] is Tree {
            AstView::Abstraction(name_token(c[1])->Some_0, Box::new(lower_spec(c[3]->Tree_0)))
        } else {
            AstView::Error
        },
        TreeKind::Let => if c.len() == 6 && c[0] is Token && name_token(c[1]) is Some && c[2]
            is Token && c[3] is Tree && c[4] is Token && c[5] is Tree {
            AstView::Let(
                name_token(c[1])->Some_0,
                Box::new(lower_spec(c[3]->Tree_0)),
                Box::new(lower_spec(c[5]->Tree_0)),
            )
        } else {
            AstView::Error
        },
        _ => AstView::Error,
    }
}

impl AstView {
    /// Whether the expression holds a node for parentheses.
    pub open spec fn has_parentheses(self) -> bool
        decreases self,
    {
        match self {
            AstView::Expr(_) => true,
            AstView::Abstraction(_, e) => e.has_parentheses(),
            AstView::Application(f, a) => f.has_parentheses() || a.has_parentheses(),
            AstView::BinaryOp(_, l, r) => l.has_parentheses() || r.has_parentheses(),
            AstView::Let(_, b, e) => b.has_parentheses() || e.has_parentheses(),
            _ => false,
        }
    }
}

/// Parentheses leave no trace: the expression that a tree lowers to holds
/// no node for them, at its root or below.
pub proof fn lemma_lowered_without_parentheses(tree: TreeView)
    ensures
        !lower_spec(tree).has_parentheses(),
    decreases tree,
{
    let c = tree.children;
    if c.len() >= 1 && c[0] is Tree {
        lemma_lowered_without_parentheses(c[0]->Tree_0);
    }
    if c.len() >= 2 && c[1] is Tree {
        lemma_lowered_without_parentheses(c[1]->Tree_0);
    }
    if c.len() >= 3 && c[2] is Tree {
        lemma_lowered_without_parentheses(c[2]->Tree_0);
    }
    if c.len() >= 4 && c[3] is Tree {
        lemma_lowered_without_parentheses(c[3]->Tree_0);
    }
    if c.len() >= 6 && c[5] is Tree {
        lemma_lowered_without_parentheses(c[5]->Tree_0);
    }
}

fn is_token(c: &Child) -> (b: bool)
    ensures
        b == (c@ is Token),
{
    match c {
        Child::Token(_) => true,
        Child::Tree(_) => false,
    }
}

fn token_of_name(c: &Child) -> (r: Option<Token>)
    ensures
        match name_token(c@) {
            Some(t) => r is Some && r->Some_0@ == t,
            None => r is None,
        },
{
    match c {
        Child::Tree(t) => {
            assert(t@.children.len() == t.children.len());
            if t.kind == TreeKind::Name && t.children.len() == 1 {
                assert(t@.children[0] == t.children@[0]@);
                match &t.children[0] {
                    Child::Token(token) => Some(token.clone()),
                    _ => None,
                }
            } else {
                None
            }
        },
        _ => None,
    }
}

/// The expression that the node `tree` stands for.
pub fn build(tree: &Tree) -> (ast: Ast)
    ensures
        ast@ == lower_spec(tree@),
    decreases tree,
{
    let c = &tree.children;
    match tree.kind {
        TreeKind::File => {
            if c.len() == 1 {
                if let Child::Tree(t) = &c[0] {
                    return build(t);
                }
            }
            Ast::Error
        },
        TreeKind::Expr => {
            if c.len() == 3 && is_token(&c[0]) && is_token(&c[2]) {
                if let Child::Tree(t) = &c[1] {
                    return build(t);
                }
            }
            Ast::Error
        },
        TreeKind::Literal => {
            if c.len() == 1 {
                if let Child::Token(t) = &c[0] {
                    return Ast::Literal(t.clone());
                }
            }
            Ast::Error
        },
        TreeKind::Name => {
            if c.len() == 1 {
                if let Child::Token(t) = &c[0] {
                    return Ast::Name(t.clone());
                }
            }
            Ast::Error
        },
        TreeKind::Binary => {
            if c.len() == 3 {
                if let Child::Tree(e1) = &c[0] {
                    if let Child::Token(op) = &c[1] {
                        if let Child::Tree(e2) = &c[2] {
                            return Ast::BinaryOp(
                                op.clone(),
                                Box::new(build(e1)),
                                Box::new(build(e2)),
                            );
                        }
                    }
                }
            }
            Ast::Error
        },
        TreeKind::Application => {
            if c.len() == 2 {
                if let Child::Tree(f) = &c[0] {
                    if let Child::Tree(a) = &c[1] {
                        return Ast::Application(Box::new(build(f)), Box::new(build(a)));
                    }
                }
            }
            Ast::Error
        },
        TreeKind::Abstraction => {
            if c.len() == 4 && is_token(&c[0]) && is_token(&c[2]) {
                if let Some(name) = token_of_name(&c[1]) {
                    if let Child::Tree(body) = &c[3] {
                        return Ast::Abstraction(name, Box::new(build(body)));
                    }
                }
            }
            Ast::Error
        },
        TreeKind::Let => {
            if c.len() == 6 && is_token(&c[0]) && is_token(&c[2]) && is_token(&c[4]) {
                if let Some(name) = token_of_name(&c[1]) {
                    if let Child::Tree(bound) = &c[3] {
                        if let Child::Tree(body) = &c[5] {
                            return Ast::Let(
                                name,
                                Box::new(build(bound)),
                                Box::new(build(body)),
                            );
                        }
                    }
                }
            }
            Ast::Error
        },
        _ => Ast::Error,
    }
}

/// What the builder reads: paths with their concrete syntax trees.
pub type Input = crate::phase::parser::Output;

/// What the builder makes of them: paths with their expressions.
pub type Output = Vec<(String, Ast)>;

/// Whether `output` holds the expression of each tree of `input`, in order.
pub open spec fn lowered(input: Seq<(String, Tree)>, output: Seq<(String, Ast)>) -> bool {
    &&& output.len() == input.len()
    &&& forall|i: int|
        0 <= i < input.len() ==> (#[trigger] output[i]).0@ == input[i].0@ && output[i].1@
            == lower_spec(input[i].1@)
}

impl Phase<Input, Output> for AstBuilder {
    /// The builder has no state: every builder is fresh.
    open spec fn fresh(&self) -> bool {
        *self == AstBuilder
    }

    /// The builder.
    fn new() -> Self {
        AstBuilder
    }

    /// Lowers the tree of every source. The phase never fails: what cannot
    /// be lowered becomes an `Error` node.
    fn run(&mut self, _config: &Config, input: &Input) -> (r: PhaseResult<Output>)
        ensures
            r is Success,
            lowered(input@, r.output()->Some_0@),
    {
        let mut out: Output = Vec::new();
        let mut i: usize = 0;
        while i < input.len()
            invariant
                i <= input.len(),
                out.len() == i,
                forall|j: int|
                    0 <= j < i ==> (#[trigger] out@[j]).0@ == input@[j].0@ && out@[j].1@
                        == lower_spec(input@[j].1@),
            decreases input.len() - i,
        {
            let ast = build(&input[i].1);
            let ghost before = out@;
            out.push((input[i].0.clone(), ast));
            proof {
                assert forall|j: int| 0 <= j < i + 1 implies (#[trigger] out@[j]).0@
                    == input@[j].0@ && out@[j].1@ == lower_spec(input@[j].1@) by {
                    if j < i {
                        assert(out@[j] == before[j]);
                    }
                }
            }
            i += 1;
        }
        PhaseResult::Success(out)
    }
}

} // verus!
