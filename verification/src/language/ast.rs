//! The abstract syntax tree: the structure of an expression without its layout.

use vstd::prelude::*;
use vstd::string::*;
use crate::language::token::{Position, Token, TokenView};

verus! {

/// An expression. Name and literal tokens stay in the nodes, so that a
/// diagnostic can point at them.
#[derive(PartialEq, Debug)]
pub enum Ast {
    /// What could not be read as an expression.
    Error,
    /// An expression in parentheses.
    Expr(Box<Ast>),
    /// `\name -> body`
    Abstraction(Token, Box<Ast>),
    /// `function argument`
    Application(Box<Ast>, Box<Ast>),
    /// `left op right`
    BinaryOp(Token, Box<Ast>, Box<Ast>),
    Literal(Token),
    /// `let name = bound in body`
    Let(Token, Box<Ast>, Box<Ast>),
    Name(Token),
}

/// Mathematical model of [`Ast`].
pub enum AstView {
    Error,
    Expr(Box<AstView>),
    Abstraction(TokenView, Box<AstView>),
    Application(Box<AstView>, Box<AstView>),
    BinaryOp(TokenView, Box<AstView>, Box<AstView>),
    Literal(TokenView),
    Let(TokenView, Box<AstView>, Box<AstView>),
    Name(TokenView),
}

/// The model of an expression.
pub open spec fn ast_view(a: Ast) -> AstView
    decreases a,
{
    match a {
        Ast::Error => AstView::Error,
        Ast::Expr(e) => AstView::Expr(Box::new(ast_view(*e))),
        Ast::Abstraction(t, e) => AstView::Abstraction(t@, Box::new(ast_view(*e))),
        Ast::Application(f, a) => AstView::Application(
            Box::new(ast_view(*f)),
            Box::new(ast_view(*a)),
        ),
        Ast::BinaryOp(t, l, r) => AstView::BinaryOp(
            t@,
            Box::new(ast_view(*l)),
            Box::new(ast_view(*r)),
        ),
        Ast::Literal(t) => AstView::Literal(t@),
        Ast::Let(t, b, e) => AstView::Let(t@, Box::new(ast_view(*b)), Box::new(ast_view(*e))),
        Ast::Name(t) => AstView::Name(t@),
    }
}

impl View for Ast {
    type V = AstView;

    open spec fn view(&self) -> AstView {
        ast_view(*self)
    }
}

/// The line of a token in a dump, under a node indented by `inset`.
pub open spec fn token_line(t: TokenView, inset: Seq<char>) -> Seq<char> {
    inset + "  '"@ + t.text() + "'"@
}

impl AstView {
    /// Number of nodes, with an operator node counted for the two
    /// applications that it abbreviates.
    pub open spec fn size(self) -> nat
        decreases self,
    {
        match self {
            AstView::Error => 1,
            AstView::Expr(e) => 1 + e.size(),
            AstView::Abstraction(_, e) => 1 + e.size(),
            AstView::Application(f, a) => 1 + f.size() + a.size(),
            AstView::BinaryOp(_, l, r) => 4 + l.size() + r.size(),
            AstView::Literal(_) => 1,
            AstView::Let(_, b, e) => 1 + b.size() + e.size(),
            AstView::Name(_) => 1,
        }
    }

    /// An operator node written as the two applications that it abbreviates:
    /// `l op r` stands for `(op l) r`. Every other node stands for itself.
    pub open spec fn desugared(self) -> AstView {
        match self {
            AstView::BinaryOp(op, l, r) => AstView::Application(
                Box::new(AstView::Application(Box::new(AstView::Name(op)), l)),
                r,
            ),
            _ => self,
        }
    }

    /// Where a diagnostic about the expression points.
    pub open spec fn position(self) -> Position
        decreases self,
    {
        match self {
            AstView::Error => Position { line: 0, column: 0, begin: 0, end: 0 },
            AstView::Expr(e) => e.position(),
            AstView::Abstraction(_, e) => e.position(),
            AstView::Application(f, _) => f.position(),
            AstView::BinaryOp(op, _, _) => op.position,
            AstView::Literal(t) => t.position,
            AstView::Let(n, _, _) => n.position,
            AstView::Name(t) => t.position,
        }
    }

    /// The dump of the expression: names and literals on one line, every
    /// other node on a line of its own with its parts below, two columns
    /// further in.
    pub open spec fn text(self, inset: Seq<char>) -> Seq<char>
        decreases self,
    {
        let deeper = inset + "  "@;
        match self {
            AstView::Name(t) => inset + "Name '"@ + t.text() + "'"@,
            AstView::Literal(t) => inset + "Literal '"@ + t.text() + "'"@,
            AstView::Error => inset + "Error"@ + "\n"@,
            AstView::Expr(e) => inset + "Expr"@ + "\n"@ + e.text(deeper),
            AstView::Abstraction(t, e) => inset + "Abstraction"@ + "\n"@ + token_line(t, inset)
                + "\n"@ + e.text(deeper),
            AstView::Application(f, a) => inset + "Application"@ + "\n"@ + f.text(deeper) + "\n"@
                + a.text(deeper),
            AstView::Let(t, b, e) => inset + "Let"@ + "\n"@ + token_line(t, inset) + "\n"@ + b.text(
                deeper,
            ) + "\n"@ + e.text(deeper),
            AstView::BinaryOp(op, l, r) => inset + "BinaryOp"@ + "\n"@ + l.text(deeper) + "\n"@
                + token_line(op, inset) + "\n"@ + r.text(deeper),
        }
    }
}

fn line_of_token(t: &Token, inset: &str) -> (s: String)
    ensures
        s@ == token_line(t@, inset@),
{
    let mut line = String::from_str(inset);
    line.append("  '");
    let text = t.text();
    line.append(text.as_str());
    line.append("'");
    line
}

impl Clone for Ast {
    fn clone(&self) -> (r: Self)
        ensures
            r@ == self@,
        decreases self,
    {
        match self {
            Ast::Error => Ast::Error,
            Ast::Expr(e) => Ast::Expr(Box::new((**e).clone())),
            Ast::Abstraction(t, e) => Ast::Abstraction(t.clone(), Box::new((**e).clone())),
            Ast::Application(f, a) => Ast::Application(
                Box::new((**f).clone()),
                Box::new((**a).clone()),
            ),
            Ast::BinaryOp(t, l, r) => Ast::BinaryOp(
                t.clone(),
                Box::new((**l).clone()),
                Box::new((**r).clone()),
            ),
            Ast::Literal(t) => Ast::Literal(t.clone()),
            Ast::Let(t, b, e) => Ast::Let(
                t.clone(),
                Box::new((**b).clone()),
                Box::new((**e).clone()),
            ),
            Ast::Name(t) => Ast::Name(t.clone()),
        }
    }
}

impl Ast {
    fn print(&self, inset: &str) -> (s: String)
        ensures
            s@ == self@.text(inset@),
        decreases self,
    {
        let mut out = String::from_str(inset);
        let mut deeper = String::from_str(inset);
        deeper.append("  ");
        match self {
            Ast::Name(t) => {
                out.append("Name '");
                out.append(t.text().as_str());
                out.append("'");
            },
            Ast::Literal(t) => {
                out.append("Literal '");
                out.append(t.text().as_str());
                out.append("'");
            },
            Ast::Error => {
                out.append("Error");
                out.append("\n");
            },
            Ast::Expr(e) => {
                out.append("Expr");
                out.append("\n");
                out.append(e.print(deeper.as_str()).as_str());
            },
            Ast::Abstraction(t, e) => {
                out.append("Abstraction");
                out.append("\n");
                out.append(line_of_token(t, inset).as_str());
                out.append("\n");
                out.append(e.print(deeper.as_str()).as_str());
            },
            Ast::Application(f, a) => {
                out.append("Application");
                out.append("\n");
                out.append(f.print(deeper.as_str()).as_str());
                out.append("\n");
                out.append(a.print(deeper.as_str()).as_str());
            },
            Ast::Let(t, b, e) => {
                out.append("Let");
                out.append("\n");
                out.append(line_of_token(t, inset).as_str());
                out.append("\n");
                out.append(b.print(deeper.as_str()).as_str());
                out.append("\n");
                out.append(e.print(deeper.as_str()).as_str());
            },
            Ast::BinaryOp(op, l, r) => {
                out.append("BinaryOp");
                out.append("\n");
                out.append(l.print(deeper.as_str()).as_str());
                out.append("\n");
                out.append(line_of_token(op, inset).as_str());
                out.append("\n");
                out.append(r.print(deeper.as_str()).as_str());
            },
        }
        out
    }

    /// The expression as indented text.
    pub fn pretty_print(&self) -> (s: String)
        ensures
            s@ == self@.text(""@),
    {
        self.print("")
    }

    /// Where a diagnostic about the expression points.
    pub fn position(&self) -> (p: Position)
        ensures
            p == self@.position(),
        decreases self,
    {
        match self {
            Ast::Error => Position { line: 0, column: 0, begin: 0, end: 0 },
            Ast::Expr(e) => e.position(),
            Ast::Abstraction(_, e) => e.position(),
            Ast::Application(f, _) => f.position(),
            Ast::BinaryOp(op, _, _) => op.position,
            Ast::Literal(t) => t.position,
            Ast::Let(n, _, _) => n.position,
            Ast::Name(t) => t.position,
        }
    }
}

} // verus!
