//! The concrete syntax tree: every token of the input, grouped under nodes.

use vstd::prelude::*;
use vstd::string::*;
use crate::language::token::{Token, TokenView};

verus! {

/// What a node of the tree stands for.
#[derive(Clone, Copy, PartialEq, Eq, Structural, Debug)]
pub enum TreeKind {
    ErrorTree,
    File,
    Expr,
    Definition,
    Params,
    Param,
    Call,
    Args,
    Arg,
    TypeExpr,
    Literal,
    Binary,
    If,
    Let,
    Abstraction,
    Name,
    Block,
    Statement,
    Application,
    BinaryOp,
}

impl TreeKind {
    /// The name of the kind, as tree dumps write it.
    pub open spec fn spec_name(self) -> Seq<char> {
        match self {
            TreeKind::ErrorTree => "ErrorTree"@,
            TreeKind::File => "File"@,
            TreeKind::Expr => "Expr"@,
            TreeKind::Definition => "Definition"@,
            TreeKind::Params => "Params"@,
            TreeKind::Param => "Param"@,
            TreeKind::Call => "Call"@,
            TreeKind::Args => "Args"@,
            TreeKind::Arg => "Arg"@,
            TreeKind::TypeExpr => "TypeExpr"@,
            TreeKind::Literal => "Literal"@,
            TreeKind::Binary => "Binary"@,
            TreeKind::If => "If"@,
            TreeKind::Let => "Let"@,
            TreeKind::Abstraction => "Abstraction"@,
            TreeKind::Name => "Name"@,
            TreeKind::Block => "Block"@,
            TreeKind::Statement => "Statement"@,
            TreeKind::Application => "Application"@,
            TreeKind::BinaryOp => "BinaryOp"@,
        }
    }

    /// The name of the kind, as tree dumps write it.
    pub fn name(self) -> (s: &'static str)
        ensures
            s@ == self.spec_name(),
    {
        match self {
            TreeKind::ErrorTree => "ErrorTree",
            TreeKind::File => "File",
            TreeKind::Expr => "Expr",
            TreeKind::Definition => "Definition",
            TreeKind::Params => "Params",
            TreeKind::Param => "Param",
            TreeKind::Call => "Call",
            TreeKind::Args => "Args",
            TreeKind::Arg => "Arg",
            TreeKind::TypeExpr => "TypeExpr",
            TreeKind::Literal => "Literal",
            TreeKind::Binary => "Binary",
            TreeKind::If => "If",
            TreeKind::Let => "Let",
            TreeKind::Abstraction => "Abstraction",
            TreeKind::Name => "Name",
            TreeKind::Block => "Block",
            TreeKind::Statement => "Statement",
            TreeKind::Application => "Application",
            TreeKind::BinaryOp => "BinaryOp",
        }
    }
}

/// One child of a node: a token, or a node of its own.
#[derive(PartialEq, Debug)]
pub enum Child {
    Token(Token),
    Tree(Tree),
}

/// A node with its children, in source order.
#[derive(PartialEq, Debug)]
pub struct Tree {
    pub kind: TreeKind,
    pub children: Vec<Child>,
}

/// Mathematical model of [`Child`].
pub enum ChildView {
    Token(TokenView),
    Tree(TreeView),
}

/// Mathematical model of [`Tree`].
pub struct TreeView {
    pub kind: TreeKind,
    pub children: Seq<ChildView>,
}

impl View for Child {
    type V = ChildView;

    open spec fn view(&self) -> ChildView
        decreases self,
    {
        match self {
            Child::Token(t) => ChildView::Token(t@),
            Child::Tree(t) => ChildView::Tree(t@),
        }
    }
}

impl View for Tree {
    type V = TreeView;

    open spec fn view(&self) -> TreeView
        decreases self,
    {
        TreeView {
            kind: self.kind,
            children: Seq::new(
                self.children.len() as nat,
                |i: int|
                    if 0 <= i < self.children.len() {
                        self.children[i]@
                    } else {
                        ChildView::Tree(TreeView { kind: TreeKind::ErrorTree, children: seq![] })
                    },
            ),
        }
    }
}

impl ChildView {
    /// The tokens under a child, from left to right.
    pub open spec fn leaves(self) -> Seq<TokenView>
        decreases self,
    {
        match self {
            ChildView::Token(t) => seq![t],
            ChildView::Tree(t) => t.leaves(),
        }
    }

    /// The dump of a child under a node whose own line is indented by `inset`.
    pub open spec fn text(self, inset: Seq<char>) -> Seq<char>
        decreases self,
    {
        match self {
            ChildView::Token(t) => inset + "  '"@ + t.text() + "'"@,
            ChildView::Tree(t) => t.text(inset + "  "@),
        }
    }
}

/// The tokens under a row of children, from left to right.
pub open spec fn leaves_of(children: Seq<ChildView>) -> Seq<TokenView>
    decreases children,
{
    if children.len() == 0 {
        seq![]
    } else {
        leaves_of(children.drop_last()) + children.last().leaves()
    }
}

/// The dumps of a row of children, one below the other.
pub open spec fn lines_of(children: Seq<ChildView>, inset: Seq<char>) -> Seq<char>
    decreases children,
{
    if children.len() == 0 {
        seq![]
    } else if children.len() == 1 {
        children.last().text(inset)
    } else {
        lines_of(children.drop_last(), inset) + "\n"@ + children.last().text(inset)
    }
}

impl TreeView {
    /// The tokens under the node, from left to right.
    pub open spec fn leaves(self) -> Seq<TokenView>
        decreases self,
    {
        leaves_of(self.children)
    }

    /// The dump of the node: its kind on a line indented by `inset`, then its
    /// children, each two columns further in.
    pub open spec fn text(self, inset: Seq<char>) -> Seq<char>
        decreases self,
    {
        inset + self.kind.spec_name() + "\n"@ + lines_of(self.children, inset)
    }
}

impl Clone for Child {
    fn clone(&self) -> (r: Self)
        ensures
            r@ == self@,
        decreases self,
    {
        match self {
            Child::Token(t) => Child::Token(t.clone()),
            Child::Tree(t) => Child::Tree(t.clone()),
        }
    }
}

impl Clone for Tree {
    fn clone(&self) -> (r: Self)
        ensures
            r@ == self@,
        decreases self,
    {
        let mut children: Vec<Child> = Vec::new();
        let mut i: usize = 0;
        while i < self.children.len()
            invariant
                i <= self.children.len(),
                children.len() == i,
                forall|j: int| 0 <= j < i ==> children@[j]@ == self.children@[j]@,
            decreases self.children.len() - i,
        {
            children.push(self.children[i].clone());
            i += 1;
        }
        let r = Tree { kind: self.kind, children };
        assert(r@.children =~= self@.children);
        r
    }
}

impl Tree {
    fn print(&self, inset: &str) -> (s: String)
        ensures
            s@ == self@.text(inset@),
        decreases self,
    {
        let mut out = String::from_str(inset);
        out.append(self.kind.name());
        out.append("\n");
        let mut deeper = String::from_str(inset);
        deeper.append("  ");
        let ghost head = out@;
        let mut i: usize = 0;
        while i < self.children.len()
            invariant
                i <= self.children.len(),
                deeper@ == inset@ + "  "@,
                out@ == head + lines_of(self@.children.take(i as int), inset@),
            decreases self.children.len() - i,
        {
            proof {
                assert(self@.children.take(i + 1).drop_last() == self@.children.take(i as int));
                assert(self@.children.take(i + 1).last() == self.children@[i as int]@);
            }
            let piece = match &self.children[i] {
                Child::Token(t) => {
                    let mut line = String::from_str(inset);
                    line.append("  '");
                    let text = t.text();
                    line.append(text.as_str());
                    line.append("'");
                    line
                },
                Child::Tree(t) => t.print(deeper.as_str()),
            };
            assert(piece@ == self.children@[i as int]@.text(inset@));
            if i > 0 {
                out.append("\n");
            }
            out.append(piece.as_str());
            assert(out@ =~= head + lines_of(self@.children.take(i + 1), inset@));
            i += 1;
        }
        proof {
            assert(self@.children.take(self.children.len() as int) == self@.children);
        }
        out
    }

    /// The tree as indented text, one node or token on each line.
    pub fn pretty_print(&self) -> (s: String)
        ensures
            s@ == self@.text(""@),
    {
        self.print("")
    }
}

} // verus!
