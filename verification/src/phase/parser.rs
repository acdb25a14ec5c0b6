//! The parser: tokens to a concrete syntax tree.
//!
//! The grammar functions write a list of events: a node opens, a token is
//! taken, a node closes. A node that is already closed can be given a new
//! parent afterwards, which is how operators and applications group to the
//! left without looking back. The event list is turned into the tree at the
//! end.

use vstd::prelude::*;
use vstd::string::*;
use crate::config::Config;
use crate::phase::phase::{Phase, PhaseResult};
use crate::language::cst::{leaves_of, Child, ChildView, Tree, TreeKind, TreeView};
use crate::language::token::{
    clone_tokens, token_views, Position, Token, TokenKind, TokenKindView, TokenView,
};
use crate::message::{
    append_messages, message_views, push_message, Content, ContentView, Message, MessageView,
    Severity,
};

verus! {

/// One step of a parse.
#[derive(Copy, Clone, PartialEq, Eq, Structural, Debug)]
pub enum Event {
    /// A node of this kind begins.
    Open { kind: TreeKind },
    /// The node that began last and is still open ends.
    Close,
    /// The next token is put under the open node.
    Advance,
}

/// Where a node that is still open began in the event list.
#[derive(Copy, Clone, PartialEq, Eq, Structural)]
pub struct MarkOpened {
    pub index: usize,
}

/// Where a node that is closed began in the event list.
#[derive(Copy, Clone, PartialEq, Eq, Structural)]
pub struct MarkClosed {
    pub index: usize,
}

/// Which grammar is read.
#[derive(Copy, Clone, PartialEq, Eq, Structural, Debug)]
pub enum Grammar {
    /// One expression, in which a function is applied by writing its
    /// argument behind it.
    Expression,
    /// A file of function definitions, in which a function is called with
    /// its arguments in parentheses.
    Definitions,
}

/// What the parser reads: the tokens, with the last of them standing for the
/// end of the input whatever its kind, the path they came from, and the
/// grammar.
pub struct Source {
    pub tokens: Seq<TokenView>,
    pub path: Seq<char>,
    pub grammar: Grammar,
}

/// What a grammar rule has read: the children that it puts under the open
/// node, the index of the next token, and the diagnostics that it adds.
pub struct Parsed {
    pub children: Seq<ChildView>,
    pub pos: int,
    pub errors: Seq<MessageView>,
}

impl Source {
    /// Whether only the token that ends the input is left at `pos`.
    pub open spec fn eof(self, pos: int) -> bool {
        pos < 0 || pos + 1 >= self.tokens.len()
    }

    /// The kind of the token at `pos`; `Eof` at the end of the input.
    pub open spec fn kind_at(self, pos: int) -> TokenKindView {
        if !self.eof(pos) {
            self.tokens[pos].kind
        } else {
            TokenKindView::Eof
        }
    }

    /// Whether the token at `pos` has the variant of `kind`.
    pub open spec fn at(self, pos: int, kind: TokenKindView) -> bool {
        self.kind_at(pos).tag() == kind.tag()
    }

    /// The place of the token at `pos`.
    pub open spec fn position_at(self, pos: int) -> Position {
        if 0 <= pos < self.tokens.len() {
            self.tokens[pos].position
        } else {
            Position { line: 0, column: 0, begin: 0, end: 0 }
        }
    }

    /// How many tokens are left to take at `pos`.
    pub open spec fn remaining(self, pos: int) -> nat {
        if pos < 0 {
            self.tokens.len()
        } else if pos + 1 < self.tokens.len() {
            (self.tokens.len() - 1 - pos) as nat
        } else {
            0
        }
    }

    /// A diagnostic at the token at `pos`.
    pub open spec fn message(
        self,
        pos: int,
        message: Seq<char>,
        fix_hint: Option<Seq<char>>,
    ) -> MessageView {
        MessageView {
            severity: Severity::Error,
            position: self.position_at(pos),
            content: ContentView { message, indicator_message: Some("here"@), fix_hint },
            source_path: self.path,
        }
    }

    /// Nothing read at `pos`.
    pub open spec fn nothing(self, pos: int) -> Parsed {
        Parsed { children: seq![], pos, errors: seq![] }
    }

    /// The token at `pos` taken.
    pub open spec fn token(self, pos: int) -> Parsed {
        Parsed { children: seq![ChildView::Token(self.tokens[pos])], pos: pos + 1, errors: seq![] }
    }

    /// Only a diagnostic at `pos`, with a hint.
    pub open spec fn complaint(
        self,
        pos: int,
        message: Seq<char>,
        fix_hint: Option<Seq<char>>,
    ) -> Parsed {
        Parsed { children: seq![], pos, errors: seq![self.message(pos, message, fix_hint)] }
    }

    /// Only a diagnostic at `pos`.
    pub open spec fn failure(self, pos: int, message: Seq<char>) -> Parsed {
        self.complaint(pos, message, None)
    }

    /// The token at `pos` taken if it has the variant of `kind`.
    pub open spec fn eat(self, pos: int, kind: TokenKindView) -> Parsed {
        if self.at(pos, kind) && !self.eof(pos) {
            self.token(pos)
        } else {
            self.nothing(pos)
        }
    }

    /// The token at `pos` taken if it has the variant of `kind`; a
    /// diagnostic otherwise, and no token taken.
    pub open spec fn expect(self, pos: int, kind: TokenKindView) -> Parsed {
        if self.at(pos, kind) && !self.eof(pos) {
            self.token(pos)
        } else {
            self.failure(pos, "expected '"@ + kind.text() + "'"@)
        }
    }
}

impl Parsed {
    /// `self`, and then `next`.
    pub open spec fn with(self, next: Parsed) -> Parsed {
        Parsed {
            children: self.children + next.children,
            pos: next.pos,
            errors: self.errors + next.errors,
        }
    }

    /// `self`, and then `next`, with the next token at `pos`.
    pub open spec fn and(self, next: Parsed, pos: int) -> Parsed {
        Parsed {
            children: self.children + next.children,
            pos,
            errors: self.errors + next.errors,
        }
    }

    /// `self` with the next token not before `pos`.
    pub open spec fn from(self, pos: int) -> Parsed {
        Parsed { children: self.children, pos: not_before(self.pos, pos), errors: self.errors }
    }

    /// What `self` has read, under one node of the kind `kind`.
    pub open spec fn wrap(self, kind: TreeKind) -> Parsed {
        Parsed {
            children: seq![ChildView::Tree(TreeView { kind, children: self.children })],
            pos: self.pos,
            errors: self.errors,
        }
    }
}

/// An index behind `pos`: `q` if it is one. A rule that has taken a token
/// ends behind where it began, so where the grammar below says
/// `behind(q, pos)`, that is `q`; written so, the definitions are seen to
/// be well-founded.
pub open spec fn behind(q: int, pos: int) -> int {
    if q > pos {
        q
    } else {
        pos + 1
    }
}

/// An index not before `pos`: `q` if it is one. No rule ends before where
/// it began, so where the grammar below says `not_before(q, pos)`, that is
/// `q`; written so, the definitions are seen to be well-founded.
pub open spec fn not_before(q: int, pos: int) -> int {
    if q >= pos {
        q
    } else {
        pos
    }
}

/// How tightly an operator binds, if the token is one.
pub open spec fn tightness(kind: TokenKindView) -> Option<nat> {
    match kind {
        TokenKindView::Plus | TokenKindView::Minus => Some(0),
        _ => None,
    }
}

/// Whether the operator `right` takes the operand between it and `left`:
/// it does if it binds tighter, or if `left` is no operator.
pub open spec fn binds_tighter(left: TokenKindView, right: TokenKindView) -> bool {
    match tightness(right) {
        None => false,
        Some(r) => match tightness(left) {
            None => true,
            Some(l) => r > l,
        },
    }
}

/// What a token begins where an expression is expected.
#[derive(Copy, Clone, PartialEq, Eq, Structural, Debug)]
pub enum Opening {
    Literal,
    Name,
    Block,
    Parenthesis,
    Abstraction,
    Let,
    If,
    /// The token begins no expression.
    Nothing,
}

/// What a token of this kind begins where an expression is expected.
pub open spec fn opening(kind: TokenKindView) -> Opening {
    match kind {
        TokenKindView::LiteralInt(_) | TokenKindView::LiteralBool(_) => Opening::Literal,
        TokenKindView::Name(_) => Opening::Name,
        TokenKindView::CurlyL => Opening::Block,
        TokenKindView::ParenL => Opening::Parenthesis,
        TokenKindView::Backslash => Opening::Abstraction,
        TokenKindView::KeywordLet => Opening::Let,
        TokenKindView::KeywordIf => Opening::If,
        _ => Opening::Nothing,
    }
}

/// Whether a token of this kind begins an expression.
pub open spec fn starts_expression(kind: TokenKindView) -> bool {
    opening(kind) != Opening::Nothing
}

/// `name`: a name token under a `Name` node.
pub open spec fn name_spec(src: Source, pos: int) -> Parsed {
    src.expect(pos, TokenKindView::Name("name"@)).wrap(TreeKind::Name)
}

/// `type_expr ::= name`
pub open spec fn type_expr_spec(src: Source, pos: int) -> Parsed {
    name_spec(src, pos).wrap(TreeKind::TypeExpr)
}

/// A comma, unless the closing parenthesis follows.
pub open spec fn separator_spec(src: Source, pos: int) -> Parsed {
    if src.at(pos, TokenKindView::ParenR) {
        src.nothing(pos)
    } else {
        src.expect(pos, TokenKindView::Comma)
    }
}

/// `param ::= name ':' type_expr ','?`
pub open spec fn param_spec(src: Source, pos: int) -> Parsed {
    let name = name_spec(src, pos);
    let colon = src.expect(name.pos, TokenKindView::Colon);
    let ty = type_expr_spec(src, colon.pos);
    let comma = separator_spec(src, ty.pos);
    name.with(colon).with(ty).with(comma).wrap(TreeKind::Param)
}

/// `param*`: what has been read so far, and parameters as long as a name
/// stands there.
pub open spec fn param_list_spec(src: Source, so_far: Parsed) -> Parsed
    decreases src.remaining(so_far.pos),
{
    if src.at(so_far.pos, TokenKindView::Name("name"@)) && !src.eof(so_far.pos) {
        let next = param_spec(src, so_far.pos);
        param_list_spec(src, so_far.and(next, behind(next.pos, so_far.pos)))
    } else {
        so_far
    }
}

/// `params ::= '(' param* ')'`
pub open spec fn params_spec(src: Source, pos: int) -> Parsed {
    let list = param_list_spec(src, src.expect(pos, TokenKindView::ParenL));
    list.with(src.expect(list.pos, TokenKindView::ParenR)).wrap(TreeKind::Params)
}

/// What stands where an expression is expected and none begins: the token
/// under an `ErrorTree` node, or an empty one at the end of the input.
pub open spec fn missing_expression_spec(src: Source, pos: int) -> Parsed {
    src.failure(pos, "expected expression"@).with(
        if src.eof(pos) {
            src.nothing(pos)
        } else {
            src.token(pos)
        },
    ).wrap(TreeKind::ErrorTree)
}

/// `'{' statement '}'` under a `Block` node.
pub open spec fn block_spec(src: Source, pos: int) -> Parsed
    decreases src.remaining(pos), 0nat,
{
    if src.eof(pos) {
        src.nothing(pos)
    } else {
        let body = statement_spec(src, pos + 1);
        let close = src.expect(body.pos, TokenKindView::CurlyR);
        src.token(pos).with(body).with(close).wrap(TreeKind::Block)
    }
}

/// `'(' expression ')'` under an `Expr` node.
pub open spec fn paren_spec(src: Source, pos: int) -> Parsed
    decreases src.remaining(pos), 0nat,
{
    if src.eof(pos) {
        src.nothing(pos)
    } else {
        let inner = expression_spec(src, pos + 1);
        let close = src.expect(inner.pos, TokenKindView::ParenR);
        src.token(pos).with(inner).with(close).wrap(TreeKind::Expr)
    }
}

/// `'\' name '->' expression` under an `Abstraction` node.
pub open spec fn abstraction_spec(src: Source, pos: int) -> Parsed
    decreases src.remaining(pos), 0nat,
{
    if src.eof(pos) {
        src.nothing(pos)
    } else {
        let name = name_spec(src, pos + 1);
        let arrow = src.expect(name.pos, TokenKindView::Arrow);
        let body = expression_spec(src, arrow.pos);
        src.token(pos).with(name).with(arrow).with(body).wrap(TreeKind::Abstraction)
    }
}

/// `'let' name '=' expression 'in' expression` under a `Let` node.
pub open spec fn let_spec(src: Source, pos: int) -> Parsed
    decreases src.remaining(pos), 0nat,
{
    if src.eof(pos) {
        src.nothing(pos)
    } else {
        let name = name_spec(src, pos + 1);
        let equal = src.expect(name.pos, TokenKindView::Equal);
        let bound = expression_spec(src, equal.pos);
        let kw_in = src.expect(bound.pos, TokenKindView::KeywordIn);
        let body = expression_spec(src, behind(kw_in.pos, pos));
        src.token(pos).with(name).with(equal).with(bound).with(kw_in).with(body).wrap(
            TreeKind::Let,
        )
    }
}

/// `'if' expression 'then' expression 'else' expression` under an `If` node.
pub open spec fn if_spec(src: Source, pos: int) -> Parsed
    decreases src.remaining(pos), 0nat,
{
    if src.eof(pos) {
        src.nothing(pos)
    } else {
        let condition = expression_spec(src, pos + 1);
        let kw_then = src.expect(condition.pos, TokenKindView::KeywordThen);
        let yes = expression_spec(src, behind(kw_then.pos, pos));
        let kw_else = src.expect(yes.pos, TokenKindView::KeywordElse);
        let no = expression_spec(src, behind(kw_else.pos, pos));
        src.token(pos).with(condition).with(kw_then).with(yes).with(kw_else).with(no).wrap(
            TreeKind::If,
        )
    }
}

/// ```text
/// expression_delim ::= literal | name | '{' statement '}' | '(' expression ')'
///                    | '\' name '->' expression
///                    | 'let' name '=' expression 'in' expression
///                    | 'if' expression 'then' expression 'else' expression
/// ```
/// Any other token is taken under an `ErrorTree` node.
pub open spec fn expr_delimited_spec(src: Source, pos: int) -> Parsed
    decreases src.remaining(pos), 1nat,
{
    match opening(src.kind_at(pos)) {
        Opening::Literal => src.token(pos).wrap(TreeKind::Literal),
        Opening::Name => src.token(pos).wrap(TreeKind::Name),
        Opening::Block => block_spec(src, pos),
        Opening::Parenthesis => paren_spec(src, pos),
        Opening::Abstraction => abstraction_spec(src, pos),
        Opening::Let => let_spec(src, pos),
        Opening::If => if_spec(src, pos),
        Opening::Nothing => missing_expression_spec(src, pos),
    }
}

/// `'(' arg* ')'` under an `Args` node. Where no parenthesis opens, only
/// the diagnostic for it.
pub open spec fn arg_list_spec(src: Source, pos: int) -> Parsed
    decreases src.remaining(pos), 1nat,
{
    if src.at(pos, TokenKindView::ParenL) && !src.eof(pos) {
        let list = args_spec(src, src.token(pos));
        list.with(src.expect(list.pos, TokenKindView::ParenR)).wrap(TreeKind::Args)
    } else {
        src.expect(pos, TokenKindView::ParenL).wrap(TreeKind::Args)
    }
}

/// Calls behind an operand: as long as a parenthesis opens, the operand and
/// the arguments go under a `Call` node, which is the operand from then on.
pub open spec fn call_loop_spec(src: Source, operand: Parsed) -> Parsed
    decreases src.remaining(operand.pos), 2nat,
{
    if src.at(operand.pos, TokenKindView::ParenL) && !src.eof(operand.pos) {
        let args = arg_list_spec(src, operand.pos);
        call_loop_spec(
            src,
            operand.and(args, behind(args.pos, operand.pos)).wrap(TreeKind::Call),
        )
    } else {
        operand
    }
}

/// Operators behind an operand: as long as an operator follows that binds
/// tighter than `left`, the operand, the operator and what the operator
/// takes on its right go under a `Binary` node, which is the operand from
/// then on.
pub open spec fn binary_loop_spec(src: Source, left: TokenKindView, operand: Parsed) -> Parsed
    decreases src.remaining(operand.pos), 2nat,
{
    let right = src.kind_at(operand.pos);
    if binds_tighter(left, right) {
        let rhs = expr_rec_spec(src, operand.pos + 1, right);
        binary_loop_spec(
            src,
            left,
            operand.with(src.token(operand.pos)).and(rhs, behind(rhs.pos, operand.pos)).wrap(
                TreeKind::Binary,
            ),
        )
    } else {
        operand
    }
}

/// An operand with the calls and the operators behind it. `left` is the
/// operator on whose right the operand stands, `Eof` where there is none.
pub open spec fn expr_rec_spec(src: Source, pos: int, left: TokenKindView) -> Parsed
    decreases src.remaining(pos), 3nat,
{
    let operand = expr_delimited_spec(src, pos).from(pos);
    let called = if src.grammar == Grammar::Definitions {
        call_loop_spec(src, operand).from(pos)
    } else {
        operand
    };
    binary_loop_spec(src, left, called)
}

/// Arguments behind a function: as long as an expression begins, the
/// function and the argument go under an `Application` node, which is the
/// function from then on.
pub open spec fn application_loop_spec(src: Source, function: Parsed) -> Parsed
    decreases src.remaining(function.pos), 2nat,
{
    if starts_expression(src.kind_at(function.pos)) {
        let arg = expr_delimited_spec(src, function.pos);
        application_loop_spec(
            src,
            function.and(arg, behind(arg.pos, function.pos)).wrap(TreeKind::Application),
        )
    } else {
        function
    }
}

/// ```text
/// expression ::= binary_op expression_delim*     (one expression)
/// expression ::= binary_op                       (definitions)
/// ```
pub open spec fn expression_spec(src: Source, pos: int) -> Parsed
    decreases src.remaining(pos), 4nat,
{
    let first = expr_rec_spec(src, pos, TokenKindView::Eof);
    if src.grammar == Grammar::Expression {
        application_loop_spec(src, first.from(pos))
    } else {
        first
    }
}

/// What follows an expression of a statement: as long as a semicolon
/// follows, the expression before it and the semicolon go under a
/// `Statement` node, and another expression is read. `done` is what went
/// before the expression `last`.
pub open spec fn statement_loop_spec(src: Source, done: Parsed, last: Parsed) -> Parsed
    decreases src.remaining(last.pos), 2nat,
{
    if src.at(last.pos, TokenKindView::Semi) && !src.eof(last.pos) {
        let closed = last.with(src.token(last.pos)).wrap(TreeKind::Statement);
        let next = expression_spec(src, last.pos + 1);
        statement_loop_spec(src, done.with(closed), next.from(last.pos + 1))
    } else {
        done.with(last)
    }
}

/// `statement ::= expression (';' expression)*`
pub open spec fn statement_spec(src: Source, pos: int) -> Parsed
    decreases src.remaining(pos), 5nat,
{
    statement_loop_spec(src, src.nothing(pos), expression_spec(src, pos).from(pos))
}

/// `arg ::= expression ','?`
pub open spec fn arg_spec(src: Source, pos: int) -> Parsed
    decreases src.remaining(pos), 5nat,
{
    let value = expression_spec(src, pos);
    value.with(separator_spec(src, value.pos)).wrap(TreeKind::Arg)
}

/// `arg*`: what has been read so far, and arguments up to the closing
/// parenthesis or the end of the input.
pub open spec fn args_spec(src: Source, so_far: Parsed) -> Parsed
    decreases src.remaining(so_far.pos), 6nat,
{
    if !src.at(so_far.pos, TokenKindView::ParenR) && !src.eof(so_far.pos) {
        let next = arg_spec(src, so_far.pos);
        args_spec(src, so_far.and(next, behind(next.pos, so_far.pos)))
    } else {
        so_far
    }
}

/// The parameters of a definition, if a parenthesis opens.
pub open spec fn def_params_spec(src: Source, pos: int) -> Parsed {
    if src.at(pos, TokenKindView::ParenL) {
        params_spec(src, pos)
    } else {
        src.nothing(pos)
    }
}

/// The result type of a definition, if a colon stands there.
pub open spec fn def_type_spec(src: Source, pos: int) -> Parsed {
    let colon = src.eat(pos, TokenKindView::Colon);
    if colon.pos > pos {
        colon.with(type_expr_spec(src, colon.pos))
    } else {
        colon
    }
}

/// The body of a definition, if a brace opens.
pub open spec fn def_body_spec(src: Source, pos: int) -> Parsed {
    let curly = src.eat(pos, TokenKindView::CurlyL);
    if curly.pos > pos {
        let statement = statement_spec(src, curly.pos);
        curly.with(statement).with(src.expect(statement.pos, TokenKindView::CurlyR))
    } else {
        curly
    }
}

/// `def ::= 'def' name params? (':' type_expr)? ('{' statement '}')?`
pub open spec fn def_spec(src: Source, pos: int) -> Parsed {
    let keyword = src.expect(pos, TokenKindView::KeywordDef);
    let name = name_spec(src, keyword.pos);
    let params = def_params_spec(src, name.pos);
    let ty = def_type_spec(src, params.pos);
    let body = def_body_spec(src, ty.pos);
    keyword.with(name).with(params).with(ty).with(body).wrap(TreeKind::Definition)
}

/// A token that begins no definition, under an `ErrorTree` node.
pub open spec fn stray_token_spec(src: Source, pos: int) -> Parsed {
    src.complaint(pos, "expected a function"@, Some("define a function using `def`"@)).with(
        src.token(pos),
    ).wrap(TreeKind::ErrorTree)
}

/// `def*`: what has been read so far, and definitions up to the end of the
/// input. A token that begins no definition is taken under an `ErrorTree`
/// node.
pub open spec fn defs_spec(src: Source, so_far: Parsed) -> Parsed
    decreases src.remaining(so_far.pos),
{
    if src.eof(so_far.pos) {
        so_far
    } else if src.at(so_far.pos, TokenKindView::KeywordDef) {
        let next = def_spec(src, so_far.pos);
        defs_spec(src, so_far.and(next, behind(next.pos, so_far.pos)))
    } else {
        defs_spec(src, so_far.with(stray_token_spec(src, so_far.pos)))
    }
}

/// A token behind the expression, under an `ErrorTree` node.
pub open spec fn trailing_token_spec(src: Source, pos: int) -> Parsed {
    src.failure(pos, "expected the end of the input"@).with(src.token(pos)).wrap(
        TreeKind::ErrorTree,
    )
}

/// What is left behind the expression, up to the end of the input: each
/// token under an `ErrorTree` node of its own.
pub open spec fn trailing_spec(src: Source, so_far: Parsed) -> Parsed
    decreases src.remaining(so_far.pos),
{
    if src.eof(so_far.pos) {
        so_far
    } else {
        trailing_spec(src, so_far.with(trailing_token_spec(src, so_far.pos)))
    }
}

/// The whole input: its definitions, or its one expression and what is
/// left behind it.
pub open spec fn content_spec(src: Source) -> Parsed {
    match src.grammar {
        Grammar::Definitions => defs_spec(src, src.nothing(0)),
        Grammar::Expression => trailing_spec(src, expression_spec(src, 0).from(0)),
    }
}

/// The whole input under a `File` node.
pub open spec fn file_spec(src: Source) -> Parsed {
    content_spec(src).wrap(TreeKind::File)
}

/// The concrete syntax tree of the input.
pub open spec fn tree_spec(src: Source) -> TreeView {
    TreeView { kind: TreeKind::File, children: content_spec(src).children }
}

/// The events that write a child.
pub open spec fn child_events(c: ChildView) -> Seq<Event>
    decreases c,
{
    match c {
        ChildView::Token(_) => seq![Event::Advance],
        ChildView::Tree(t) => tree_events(t),
    }
}

/// The events that write a node: it opens, its children are written, it closes.
pub open spec fn tree_events(t: TreeView) -> Seq<Event>
    decreases t,
{
    seq![Event::Open { kind: t.kind }] + events_of(t.children) + seq![Event::Close]
}

/// The events that write a row of children.
pub open spec fn events_of(children: Seq<ChildView>) -> Seq<Event>
    decreases children,
{
    if children.len() == 0 {
        seq![]
    } else {
        events_of(children.drop_last()) + child_events(children.last())
    }
}

/// The events of two rows of children are the events of the one row.
pub proof fn lemma_events_concat(a: Seq<ChildView>, b: Seq<ChildView>)
    ensures
        events_of(a + b) == events_of(a) + events_of(b),
    decreases b.len(),
{
    if b.len() == 0 {
        assert(a + b =~= a);
        assert(events_of(a) + events_of(b) =~= events_of(a));
    } else {
        lemma_events_concat(a, b.drop_last());
        assert((a + b).drop_last() =~= a + b.drop_last());
        assert((a + b).last() == b.last());
        assert(events_of(a + b) =~= events_of(a) + events_of(b));
    }
}

/// The tokens under two rows of children are the tokens under the one row.
pub proof fn lemma_leaves_concat(a: Seq<ChildView>, b: Seq<ChildView>)
    ensures
        leaves_of(a + b) == leaves_of(a) + leaves_of(b),
    decreases b.len(),
{
    if b.len() == 0 {
        assert(a + b =~= a);
        assert(leaves_of(a) + leaves_of(b) =~= leaves_of(a));
    } else {
        lemma_leaves_concat(a, b.drop_last());
        assert((a + b).drop_last() =~= a + b.drop_last());
        assert((a + b).last() == b.last());
        assert(leaves_of(a + b) =~= leaves_of(a) + leaves_of(b));
    }
}

/// The events and the tokens of a row of one child.
pub proof fn lemma_single(c: ChildView)
    ensures
        events_of(seq![c]) == child_events(c),
        leaves_of(seq![c]) == c.leaves(),
{
    assert(seq![c].drop_last() =~= Seq::<ChildView>::empty());
    assert(seq![c].last() == c);
    assert(events_of(seq![c].drop_last()) =~= Seq::<Event>::empty());
    assert(leaves_of(seq![c].drop_last()) =~= Seq::<TokenView>::empty());
    assert(events_of(seq![c]) =~= child_events(c));
    assert(leaves_of(seq![c]) =~= c.leaves());
}

impl Source {
    /// An index at which the parser can stand: a token, or the beginning
    /// of an empty input.
    pub open spec fn valid(self, pos: int) -> bool {
        0 <= pos && (pos < self.tokens.len() || pos == 0)
    }

    /// Whether a rule that began at `from` has read what it says: it went
    /// forward, and the tokens under its children are those between `from`
    /// and where it stopped.
    pub open spec fn sound(self, from: int, step: Parsed) -> bool {
        &&& 0 <= from <= step.pos
        &&& self.valid(step.pos)
        &&& leaves_of(step.children) == self.tokens.subrange(from, step.pos)
    }
}

/// Nothing read is sound.
pub proof fn lemma_sound_nothing(src: Source, pos: int)
    requires
        src.valid(pos),
    ensures
        src.sound(pos, src.nothing(pos)),
        forall|message: Seq<char>, hint: Option<Seq<char>>| #[trigger]
            src.sound(pos, src.complaint(pos, message, hint)),
{
    assert(leaves_of(Seq::<ChildView>::empty()) =~= src.tokens.subrange(pos, pos));
}

/// A token taken is sound.
pub proof fn lemma_sound_token(src: Source, pos: int)
    requires
        src.valid(pos),
        !src.eof(pos),
    ensures
        src.sound(pos, src.token(pos)),
{
    let step = src.token(pos);
    lemma_single(step.children[0]);
    assert(step.children =~= seq![step.children[0]]);
    assert(leaves_of(step.children) =~= src.tokens.subrange(pos, pos + 1));
}

/// A token taken if it fits is sound.
pub proof fn lemma_sound_expect(src: Source, pos: int, kind: TokenKindView)
    requires
        src.valid(pos),
    ensures
        src.sound(pos, src.expect(pos, kind)),
        src.sound(pos, src.eat(pos, kind)),
{
    lemma_sound_nothing(src, pos);
    if src.at(pos, kind) && !src.eof(pos) {
        lemma_sound_token(src, pos);
    }
}

/// One sound rule behind another is sound.
pub proof fn lemma_sound_with(src: Source, from: int, a: Parsed, b: Parsed)
    requires
        src.sound(from, a),
        src.sound(a.pos, b),
    ensures
        src.sound(from, a.with(b)),
        b.pos > a.pos ==> a.and(b, behind(b.pos, a.pos)) == a.with(b),
{
    lemma_leaves_concat(a.children, b.children);
    assert(src.tokens.subrange(from, a.pos) + src.tokens.subrange(a.pos, b.pos)
        =~= src.tokens.subrange(from, b.pos));
}

/// What a sound rule has read is sound under a node.
pub proof fn lemma_sound_wrap(src: Source, from: int, a: Parsed, kind: TreeKind)
    requires
        src.sound(from, a),
    ensures
        src.sound(from, a.wrap(kind)),
{
    let tree = TreeView { kind, children: a.children };
    lemma_single(ChildView::Tree(tree));
}

/// The rules without recursion are sound.
pub proof fn lemma_sound_simple(src: Source, pos: int)
    requires
        src.valid(pos),
    ensures
        src.sound(pos, name_spec(src, pos)),
        src.sound(pos, type_expr_spec(src, pos)),
        src.sound(pos, separator_spec(src, pos)),
        src.sound(pos, param_spec(src, pos)),
        src.sound(pos, missing_expression_spec(src, pos)),
        !src.eof(pos) ==> missing_expression_spec(src, pos).pos > pos,
        src.at(pos, TokenKindView::Name("name"@)) && !src.eof(pos) ==> param_spec(src, pos).pos
            > pos,
        !src.eof(pos) ==> src.sound(pos, stray_token_spec(src, pos)) && src.sound(
            pos,
            trailing_token_spec(src, pos),
        ),
{
    let name_kind = TokenKindView::Name("name"@);
    lemma_sound_nothing(src, pos);
    lemma_sound_expect(src, pos, name_kind);
    lemma_sound_expect(src, pos, TokenKindView::Comma);
    let expected = src.expect(pos, name_kind);
    lemma_sound_wrap(src, pos, expected, TreeKind::Name);
    let name = name_spec(src, pos);
    lemma_sound_wrap(src, pos, name, TreeKind::TypeExpr);
    // A parameter.
    let colon = src.expect(name.pos, TokenKindView::Colon);
    lemma_sound_expect(src, name.pos, TokenKindView::Colon);
    lemma_sound_with(src, pos, name, colon);
    let ty_name = src.expect(colon.pos, name_kind);
    lemma_sound_expect(src, colon.pos, name_kind);
    lemma_sound_wrap(src, colon.pos, ty_name, TreeKind::Name);
    lemma_sound_wrap(src, colon.pos, name_spec(src, colon.pos), TreeKind::TypeExpr);
    let ty = type_expr_spec(src, colon.pos);
    lemma_sound_with(src, pos, name.with(colon), ty);
    lemma_sound_nothing(src, ty.pos);
    lemma_sound_expect(src, ty.pos, TokenKindView::Comma);
    let comma = separator_spec(src, ty.pos);
    lemma_sound_with(src, pos, name.with(colon).with(ty), comma);
    lemma_sound_wrap(src, pos, name.with(colon).with(ty).with(comma), TreeKind::Param);
    // A token under an error node.
    let failure = src.failure(pos, "expected expression"@);
    if src.eof(pos) {
        lemma_sound_with(src, pos, failure, src.nothing(pos));
        lemma_sound_wrap(src, pos, failure.with(src.nothing(pos)), TreeKind::ErrorTree);
    } else {
        lemma_sound_token(src, pos);
        lemma_sound_with(src, pos, failure, src.token(pos));
        lemma_sound_wrap(src, pos, failure.with(src.token(pos)), TreeKind::ErrorTree);
        let stray = src.complaint(
            pos,
            "expected a function"@,
            Some("define a function using `def`"@),
        );
        lemma_sound_with(src, pos, stray, src.token(pos));
        lemma_sound_wrap(src, pos, stray.with(src.token(pos)), TreeKind::ErrorTree);
        let trailing = src.failure(pos, "expected the end of the input"@);
        lemma_sound_with(src, pos, trailing, src.token(pos));
        lemma_sound_wrap(src, pos, trailing.with(src.token(pos)), TreeKind::ErrorTree);
    }
}

/// The list of parameters is sound.
pub proof fn lemma_sound_param_list(src: Source, from: int, so_far: Parsed)
    requires
        src.sound(from, so_far),
    ensures
        src.sound(from, param_list_spec(src, so_far)),
        param_list_spec(src, so_far).pos >= so_far.pos,
    decreases src.remaining(so_far.pos),
{
    if src.at(so_far.pos, TokenKindView::Name("name"@)) && !src.eof(so_far.pos) {
        let next = param_spec(src, so_far.pos);
        lemma_sound_simple(src, so_far.pos);
        lemma_sound_with(src, from, so_far, next);
        lemma_sound_param_list(src, from, so_far.with(next));
    }
}

/// The parameters in their parentheses are sound.
pub proof fn lemma_sound_params(src: Source, pos: int)
    requires
        src.valid(pos),
    ensures
        src.sound(pos, params_spec(src, pos)),
        src.sound(pos, def_params_spec(src, pos)),
{
    lemma_sound_nothing(src, pos);
    let open = src.expect(pos, TokenKindView::ParenL);
    lemma_sound_expect(src, pos, TokenKindView::ParenL);
    lemma_sound_param_list(src, pos, open);
    let list = param_list_spec(src, open);
    lemma_sound_expect(src, list.pos, TokenKindView::ParenR);
    lemma_sound_with(src, pos, list, src.expect(list.pos, TokenKindView::ParenR));
    lemma_sound_wrap(
        src,
        pos,
        list.with(src.expect(list.pos, TokenKindView::ParenR)),
        TreeKind::Params,
    );
}

/// A block is sound.
pub proof fn lemma_sound_block(src: Source, pos: int)
    requires
        src.valid(pos),
    ensures
        src.sound(pos, block_spec(src, pos)),
        !src.eof(pos) ==> block_spec(src, pos).pos > pos,
    decreases src.remaining(pos), 0nat,
{
    if src.eof(pos) {
        lemma_sound_nothing(src, pos);
    } else {
        let open = src.token(pos);
        lemma_sound_token(src, pos);
        lemma_sound_statement(src, pos + 1);
        let body = statement_spec(src, pos + 1);
        lemma_sound_with(src, pos, open, body);
        let close = src.expect(body.pos, TokenKindView::CurlyR);
        lemma_sound_expect(src, body.pos, TokenKindView::CurlyR);
        lemma_sound_with(src, pos, open.with(body), close);
        lemma_sound_wrap(src, pos, open.with(body).with(close), TreeKind::Block);
    }
}

/// An expression in parentheses is sound.
pub proof fn lemma_sound_paren(src: Source, pos: int)
    requires
        src.valid(pos),
    ensures
        src.sound(pos, paren_spec(src, pos)),
        !src.eof(pos) ==> paren_spec(src, pos).pos > pos,
    decreases src.remaining(pos), 0nat,
{
    if src.eof(pos) {
        lemma_sound_nothing(src, pos);
    } else {
        let open = src.token(pos);
        lemma_sound_token(src, pos);
        lemma_sound_expression(src, pos + 1);
        let inner = expression_spec(src, pos + 1);
        lemma_sound_with(src, pos, open, inner);
        let close = src.expect(inner.pos, TokenKindView::ParenR);
        lemma_sound_expect(src, inner.pos, TokenKindView::ParenR);
        lemma_sound_with(src, pos, open.with(inner), close);
        lemma_sound_wrap(src, pos, open.with(inner).with(close), TreeKind::Expr);
    }
}

/// An abstraction is sound.
pub proof fn lemma_sound_abstraction(src: Source, pos: int)
    requires
        src.valid(pos),
    ensures
        src.sound(pos, abstraction_spec(src, pos)),
        !src.eof(pos) ==> abstraction_spec(src, pos).pos > pos,
    decreases src.remaining(pos), 0nat,
{
    if src.eof(pos) {
        lemma_sound_nothing(src, pos);
    } else {
        let open = src.token(pos);
        lemma_sound_token(src, pos);
        lemma_sound_simple(src, pos + 1);
        let name = name_spec(src, pos + 1);
        lemma_sound_with(src, pos, open, name);
        let arrow = src.expect(name.pos, TokenKindView::Arrow);
        lemma_sound_expect(src, name.pos, TokenKindView::Arrow);
        lemma_sound_with(src, pos, open.with(name), arrow);
        lemma_sound_expression(src, arrow.pos);
        let body = expression_spec(src, arrow.pos);
        lemma_sound_with(src, pos, open.with(name).with(arrow), body);
        lemma_sound_wrap(src, pos, open.with(name).with(arrow).with(body), TreeKind::Abstraction);
    }
}

/// A `let` is sound.
pub proof fn lemma_sound_let(src: Source, pos: int)
    requires
        src.valid(pos),
    ensures
        src.sound(pos, let_spec(src, pos)),
        !src.eof(pos) ==> let_spec(src, pos).pos > pos,
    decreases src.remaining(pos), 0nat,
{
    if src.eof(pos) {
        lemma_sound_nothing(src, pos);
    } else {
        let open = src.token(pos);
        lemma_sound_token(src, pos);
        lemma_sound_simple(src, pos + 1);
        let name = name_spec(src, pos + 1);
        lemma_sound_with(src, pos, open, name);
        let equal = src.expect(name.pos, TokenKindView::Equal);
        lemma_sound_expect(src, name.pos, TokenKindView::Equal);
        lemma_sound_with(src, pos, open.with(name), equal);
        lemma_sound_expression(src, equal.pos);
        let bound = expression_spec(src, equal.pos);
        lemma_sound_with(src, pos, open.with(name).with(equal), bound);
        let kw_in = src.expect(bound.pos, TokenKindView::KeywordIn);
        lemma_sound_expect(src, bound.pos, TokenKindView::KeywordIn);
        let before_body = open.with(name).with(equal).with(bound).with(kw_in);
        lemma_sound_with(src, pos, open.with(name).with(equal).with(bound), kw_in);
        lemma_sound_expression(src, kw_in.pos);
        let body = expression_spec(src, behind(kw_in.pos, pos));
        lemma_sound_with(src, pos, before_body, body);
        lemma_sound_wrap(src, pos, before_body.with(body), TreeKind::Let);
    }
}

/// An `if` is sound.
pub proof fn lemma_sound_if(src: Source, pos: int)
    requires
        src.valid(pos),
    ensures
        src.sound(pos, if_spec(src, pos)),
        !src.eof(pos) ==> if_spec(src, pos).pos > pos,
    decreases src.remaining(pos), 0nat,
{
    if src.eof(pos) {
        lemma_sound_nothing(src, pos);
    } else {
        let open = src.token(pos);
        lemma_sound_token(src, pos);
        lemma_sound_expression(src, pos + 1);
        let condition = expression_spec(src, pos + 1);
        lemma_sound_with(src, pos, open, condition);
        let kw_then = src.expect(condition.pos, TokenKindView::KeywordThen);
        lemma_sound_expect(src, condition.pos, TokenKindView::KeywordThen);
        lemma_sound_with(src, pos, open.with(condition), kw_then);
        lemma_sound_expression(src, kw_then.pos);
        let yes = expression_spec(src, behind(kw_then.pos, pos));
        lemma_sound_with(src, pos, open.with(condition).with(kw_then), yes);
        let kw_else = src.expect(yes.pos, TokenKindView::KeywordElse);
        lemma_sound_expect(src, yes.pos, TokenKindView::KeywordElse);
        let before_no = open.with(condition).with(kw_then).with(yes).with(kw_else);
        lemma_sound_with(src, pos, open.with(condition).with(kw_then).with(yes), kw_else);
        lemma_sound_expression(src, kw_else.pos);
        let no = expression_spec(src, behind(kw_else.pos, pos));
        lemma_sound_with(src, pos, before_no, no);
        lemma_sound_wrap(src, pos, before_no.with(no), TreeKind::If);
    }
}

/// What stands where an expression begins is sound, and takes a token
/// unless the input has ended.
pub proof fn lemma_sound_delimited(src: Source, pos: int)
    requires
        src.valid(pos),
    ensures
        src.sound(pos, expr_delimited_spec(src, pos)),
        !src.eof(pos) ==> expr_delimited_spec(src, pos).pos > pos,
    decreases src.remaining(pos), 1nat,
{
    match opening(src.kind_at(pos)) {
        Opening::Literal => {
            lemma_sound_token(src, pos);
            lemma_sound_wrap(src, pos, src.token(pos), TreeKind::Literal);
        },
        Opening::Name => {
            lemma_sound_token(src, pos);
            lemma_sound_wrap(src, pos, src.token(pos), TreeKind::Name);
        },
        Opening::Block => lemma_sound_block(src, pos),
        Opening::Parenthesis => lemma_sound_paren(src, pos),
        Opening::Abstraction => lemma_sound_abstraction(src, pos),
        Opening::Let => lemma_sound_let(src, pos),
        Opening::If => lemma_sound_if(src, pos),
        Opening::Nothing => lemma_sound_simple(src, pos),
    }
}

/// The arguments in their parentheses are sound.
pub proof fn lemma_sound_arg_list(src: Source, pos: int)
    requires
        src.valid(pos),
    ensures
        src.sound(pos, arg_list_spec(src, pos)),
        src.at(pos, TokenKindView::ParenL) && !src.eof(pos) ==> arg_list_spec(src, pos).pos > pos,
    decreases src.remaining(pos), 1nat,
{
    lemma_sound_expect(src, pos, TokenKindView::ParenL);
    if src.at(pos, TokenKindView::ParenL) && !src.eof(pos) {
        lemma_sound_token(src, pos);
        lemma_sound_args(src, pos, src.token(pos));
        let list = args_spec(src, src.token(pos));
        lemma_sound_expect(src, list.pos, TokenKindView::ParenR);
        lemma_sound_with(src, pos, list, src.expect(list.pos, TokenKindView::ParenR));
        lemma_sound_wrap(
            src,
            pos,
            list.with(src.expect(list.pos, TokenKindView::ParenR)),
            TreeKind::Args,
        );
    } else {
        lemma_sound_wrap(src, pos, src.expect(pos, TokenKindView::ParenL), TreeKind::Args);
    }
}

/// An operand with the calls behind it is sound.
pub proof fn lemma_sound_calls(src: Source, from: int, operand: Parsed)
    requires
        src.sound(from, operand),
    ensures
        src.sound(from, call_loop_spec(src, operand)),
        call_loop_spec(src, operand).pos >= operand.pos,
    decreases src.remaining(operand.pos), 2nat,
{
    if src.at(operand.pos, TokenKindView::ParenL) && !src.eof(operand.pos) {
        lemma_sound_arg_list(src, operand.pos);
        let args = arg_list_spec(src, operand.pos);
        lemma_sound_with(src, from, operand, args);
        lemma_sound_wrap(src, from, operand.with(args), TreeKind::Call);
        lemma_sound_calls(src, from, operand.with(args).wrap(TreeKind::Call));
    }
}

/// An operand with the operators behind it is sound.
pub proof fn lemma_sound_operators(src: Source, from: int, left: TokenKindView, operand: Parsed)
    requires
        src.sound(from, operand),
    ensures
        src.sound(from, binary_loop_spec(src, left, operand)),
        binary_loop_spec(src, left, operand).pos >= operand.pos,
    decreases src.remaining(operand.pos), 2nat,
{
    let right = src.kind_at(operand.pos);
    if binds_tighter(left, right) {
        lemma_sound_token(src, operand.pos);
        let operator = src.token(operand.pos);
        lemma_sound_with(src, from, operand, operator);
        lemma_sound_operand(src, operand.pos + 1, right);
        let rhs = expr_rec_spec(src, operand.pos + 1, right);
        lemma_sound_with(src, from, operand.with(operator), rhs);
        lemma_sound_wrap(src, from, operand.with(operator).with(rhs), TreeKind::Binary);
        lemma_sound_operators(
            src,
            from,
            left,
            operand.with(operator).with(rhs).wrap(TreeKind::Binary),
        );
    }
}

/// An operand with what stands behind it is sound.
pub proof fn lemma_sound_operand(src: Source, pos: int, left: TokenKindView)
    requires
        src.valid(pos),
    ensures
        src.sound(pos, expr_rec_spec(src, pos, left)),
        !src.eof(pos) ==> expr_rec_spec(src, pos, left).pos > pos,
    decreases src.remaining(pos), 3nat,
{
    lemma_sound_delimited(src, pos);
    let operand = expr_delimited_spec(src, pos);
    assert(operand.from(pos) == operand);
    let called = if src.grammar == Grammar::Definitions {
        lemma_sound_calls(src, pos, operand);
        assert(call_loop_spec(src, operand).from(pos) == call_loop_spec(src, operand));
        call_loop_spec(src, operand)
    } else {
        operand
    };
    lemma_sound_operators(src, pos, left, called);
}

/// A function with the arguments behind it is sound.
pub proof fn lemma_sound_applications(src: Source, from: int, function: Parsed)
    requires
        src.sound(from, function),
    ensures
        src.sound(from, application_loop_spec(src, function)),
        application_loop_spec(src, function).pos >= function.pos,
    decreases src.remaining(function.pos), 2nat,
{
    if starts_expression(src.kind_at(function.pos)) {
        lemma_sound_delimited(src, function.pos);
        let arg = expr_delimited_spec(src, function.pos);
        lemma_sound_with(src, from, function, arg);
        lemma_sound_wrap(src, from, function.with(arg), TreeKind::Application);
        lemma_sound_applications(src, from, function.with(arg).wrap(TreeKind::Application));
    }
}

/// An expression is sound, and takes a token unless the input has ended.
pub proof fn lemma_sound_expression(src: Source, pos: int)
    requires
        src.valid(pos),
    ensures
        src.sound(pos, expression_spec(src, pos)),
        !src.eof(pos) ==> expression_spec(src, pos).pos > pos,
    decreases src.remaining(pos), 4nat,
{
    lemma_sound_operand(src, pos, TokenKindView::Eof);
    let first = expr_rec_spec(src, pos, TokenKindView::Eof);
    assert(first.from(pos) == first);
    if src.grammar == Grammar::Expression {
        lemma_sound_applications(src, pos, first);
    }
}

/// What follows an expression of a statement is sound.
pub proof fn lemma_sound_statements(src: Source, from: int, done: Parsed, last: Parsed)
    requires
        src.sound(from, done),
        src.sound(done.pos, last),
    ensures
        src.sound(from, statement_loop_spec(src, done, last)),
    decreases src.remaining(last.pos), 2nat,
{
    if src.at(last.pos, TokenKindView::Semi) && !src.eof(last.pos) {
        lemma_sound_token(src, last.pos);
        let semi = src.token(last.pos);
        lemma_sound_with(src, done.pos, last, semi);
        lemma_sound_wrap(src, done.pos, last.with(semi), TreeKind::Statement);
        let closed = last.with(semi).wrap(TreeKind::Statement);
        lemma_sound_with(src, from, done, closed);
        lemma_sound_expression(src, last.pos + 1);
        let next = expression_spec(src, last.pos + 1);
        assert(next.from(last.pos + 1) == next);
        lemma_sound_statements(src, from, done.with(closed), next);
    } else {
        lemma_sound_with(src, from, done, last);
    }
}

/// A statement is sound.
pub proof fn lemma_sound_statement(src: Source, pos: int)
    requires
        src.valid(pos),
    ensures
        src.sound(pos, statement_spec(src, pos)),
    decreases src.remaining(pos), 5nat,
{
    lemma_sound_nothing(src, pos);
    lemma_sound_expression(src, pos);
    let first = expression_spec(src, pos);
    assert(first.from(pos) == first);
    lemma_sound_statements(src, pos, src.nothing(pos), first);
}

/// An argument is sound, and takes a token unless the input has ended.
pub proof fn lemma_sound_arg(src: Source, pos: int)
    requires
        src.valid(pos),
    ensures
        src.sound(pos, arg_spec(src, pos)),
        !src.eof(pos) ==> arg_spec(src, pos).pos > pos,
    decreases src.remaining(pos), 5nat,
{
    lemma_sound_expression(src, pos);
    let value = expression_spec(src, pos);
    lemma_sound_simple(src, value.pos);
    lemma_sound_with(src, pos, value, separator_spec(src, value.pos));
    lemma_sound_wrap(src, pos, value.with(separator_spec(src, value.pos)), TreeKind::Arg);
}

/// A list of arguments is sound.
pub proof fn lemma_sound_args(src: Source, from: int, so_far: Parsed)
    requires
        src.sound(from, so_far),
    ensures
        src.sound(from, args_spec(src, so_far)),
        args_spec(src, so_far).pos >= so_far.pos,
    decreases src.remaining(so_far.pos), 6nat,
{
    if !src.at(so_far.pos, TokenKindView::ParenR) && !src.eof(so_far.pos) {
        lemma_sound_arg(src, so_far.pos);
        let next = arg_spec(src, so_far.pos);
        lemma_sound_with(src, from, so_far, next);
        lemma_sound_args(src, from, so_far.with(next));
    }
}

/// A definition is sound, and takes a token if it begins with `def`.
pub proof fn lemma_sound_def(src: Source, pos: int)
    requires
        src.valid(pos),
    ensures
        src.sound(pos, def_spec(src, pos)),
        src.at(pos, TokenKindView::KeywordDef) && !src.eof(pos) ==> def_spec(src, pos).pos > pos,
{
    let keyword = src.expect(pos, TokenKindView::KeywordDef);
    lemma_sound_expect(src, pos, TokenKindView::KeywordDef);
    lemma_sound_simple(src, keyword.pos);
    let name = name_spec(src, keyword.pos);
    lemma_sound_with(src, pos, keyword, name);
    lemma_sound_params(src, name.pos);
    let params = def_params_spec(src, name.pos);
    lemma_sound_with(src, pos, keyword.with(name), params);
    // The result type.
    let colon = src.eat(params.pos, TokenKindView::Colon);
    lemma_sound_expect(src, params.pos, TokenKindView::Colon);
    lemma_sound_simple(src, colon.pos);
    lemma_sound_with(src, params.pos, colon, type_expr_spec(src, colon.pos));
    let ty = def_type_spec(src, params.pos);
    lemma_sound_with(src, pos, keyword.with(name).with(params), ty);
    // The body.
    let curly = src.eat(ty.pos, TokenKindView::CurlyL);
    lemma_sound_expect(src, ty.pos, TokenKindView::CurlyL);
    lemma_sound_statement(src, curly.pos);
    let statement = statement_spec(src, curly.pos);
    lemma_sound_with(src, ty.pos, curly, statement);
    lemma_sound_expect(src, statement.pos, TokenKindView::CurlyR);
    lemma_sound_with(
        src,
        ty.pos,
        curly.with(statement),
        src.expect(statement.pos, TokenKindView::CurlyR),
    );
    let body = def_body_spec(src, ty.pos);
    lemma_sound_with(src, pos, keyword.with(name).with(params).with(ty), body);
    lemma_sound_wrap(
        src,
        pos,
        keyword.with(name).with(params).with(ty).with(body),
        TreeKind::Definition,
    );
}

/// The definitions of a file are sound, and end at the end of the input.
pub proof fn lemma_sound_defs(src: Source, from: int, so_far: Parsed)
    requires
        src.sound(from, so_far),
    ensures
        src.sound(from, defs_spec(src, so_far)),
        src.eof(defs_spec(src, so_far).pos),
    decreases src.remaining(so_far.pos),
{
    if !src.eof(so_far.pos) {
        if src.at(so_far.pos, TokenKindView::KeywordDef) {
            lemma_sound_def(src, so_far.pos);
            let next = def_spec(src, so_far.pos);
            lemma_sound_with(src, from, so_far, next);
            lemma_sound_defs(src, from, so_far.with(next));
        } else {
            lemma_sound_simple(src, so_far.pos);
            let next = stray_token_spec(src, so_far.pos);
            lemma_sound_with(src, from, so_far, next);
            lemma_sound_defs(src, from, so_far.with(next));
        }
    }
}

/// What is left behind the expression is sound, and ends at the end of the
/// input.
pub proof fn lemma_sound_trailing(src: Source, from: int, so_far: Parsed)
    requires
        src.sound(from, so_far),
    ensures
        src.sound(from, trailing_spec(src, so_far)),
        src.eof(trailing_spec(src, so_far).pos),
    decreases src.remaining(so_far.pos),
{
    if !src.eof(so_far.pos) {
        lemma_sound_simple(src, so_far.pos);
        let next = trailing_token_spec(src, so_far.pos);
        lemma_sound_with(src, from, so_far, next);
        lemma_sound_trailing(src, from, so_far.with(next));
    }
}

/// The tree holds every token: the tokens under the concrete syntax tree of
/// an input, from left to right, are the tokens of the input but the last,
/// which ends it.
pub proof fn lemma_tree_holds_tokens(src: Source)
    ensures
        src.sound(0, content_spec(src)),
        src.eof(content_spec(src).pos),
        tree_spec(src).leaves() == src.tokens.subrange(0, content_spec(src).pos),
        src.tokens.len() > 0 ==> content_spec(src).pos == src.tokens.len() - 1,
{
    lemma_sound_nothing(src, 0);
    match src.grammar {
        Grammar::Definitions => {
            lemma_sound_defs(src, 0, src.nothing(0));
        },
        Grammar::Expression => {
            lemma_sound_expression(src, 0);
            let first = expression_spec(src, 0);
            assert(first.from(0) == first);
            lemma_sound_trailing(src, 0, first);
        },
    }
}

/// The state of the parser over the tokens of one source.
pub struct Parser {
    pub source_path: String,
    /// The diagnostics so far.
    pub errors: Vec<Message>,
    pub tokens: Vec<Token>,
    /// Index of the next token.
    pub pos: usize,
    /// The events so far.
    pub events: Vec<Event>,
    pub grammar: Grammar,
}

impl Parser {
    /// What the parser reads.
    pub open spec fn source(&self) -> Source {
        Source {
            tokens: token_views(self.tokens@),
            path: self.source_path@,
            grammar: self.grammar,
        }
    }

    /// The parser stands at a token, or at the beginning of an empty input.
    pub open spec fn wf(&self) -> bool {
        self.source().valid(self.pos as int)
    }

    /// `self` reads what `before` reads.
    pub open spec fn same_input(&self, before: &Parser) -> bool {
        &&& self.tokens == before.tokens
        &&& self.source_path == before.source_path
        &&& self.grammar == before.grammar
    }

    /// `self` is `before` after the rule that has read `step`.
    pub open spec fn step_of(&self, before: &Parser, step: Parsed) -> bool {
        &&& self.same_input(before)
        &&& self.events@ == before.events@ + events_of(step.children)
        &&& self.pos == step.pos
        &&& message_views(self.errors@) == message_views(before.errors@) + step.errors
        &&& before.source().sound(before.pos as int, step)
    }

    /// `self` is `before` after a node has been opened at the mark `m` and
    /// `inner` has been read under it.
    pub open spec fn inside(&self, before: &Parser, m: MarkOpened, inner: Parsed) -> bool {
        &&& self.same_input(before)
        &&& m.index == before.events@.len()
        &&& self.events@ == before.events@.push(Event::Open { kind: TreeKind::ErrorTree })
            + events_of(inner.children)
        &&& self.pos == inner.pos
        &&& message_views(self.errors@) == message_views(before.errors@) + inner.errors
        &&& before.source().sound(before.pos as int, inner)
    }
}

/// One rule behind another.
pub proof fn lemma_step_with(p0: Parser, p1: Parser, p2: Parser, a: Parsed, b: Parsed)
    requires
        p1.step_of(&p0, a),
        p2.step_of(&p1, b),
    ensures
        p2.step_of(&p0, a.with(b)),
{
    lemma_events_concat(a.children, b.children);
    lemma_leaves_concat(a.children, b.children);
    let tokens = p0.source().tokens;
    assert(tokens.subrange(p0.pos as int, a.pos) + tokens.subrange(a.pos, b.pos)
        =~= tokens.subrange(p0.pos as int, b.pos));
    assert(p2.events@ =~= p0.events@ + events_of(a.with(b).children));
    assert(message_views(p2.errors@) =~= message_views(p0.errors@) + a.with(b).errors);
}

/// The first rule under an open node.
pub proof fn lemma_inside_first(p0: Parser, m: MarkOpened, p1: Parser, p2: Parser, b: Parsed)
    requires
        p1.inside(&p0, m, p0.source().nothing(p0.pos as int)),
        p2.step_of(&p1, b),
    ensures
        p2.inside(&p0, m, b),
{
    let nothing = p0.source().nothing(p0.pos as int);
    assert(events_of(nothing.children) =~= Seq::<Event>::empty());
    assert(p2.events@ =~= p0.events@.push(Event::Open { kind: TreeKind::ErrorTree }) + events_of(
        b.children,
    ));
    assert(message_views(p2.errors@) =~= message_views(p0.errors@) + b.errors);
}

/// One more rule under an open node.
pub proof fn lemma_inside_with(
    p0: Parser,
    m: MarkOpened,
    p1: Parser,
    p2: Parser,
    a: Parsed,
    b: Parsed,
)
    requires
        p1.inside(&p0, m, a),
        p2.step_of(&p1, b),
    ensures
        p2.inside(&p0, m, a.with(b)),
{
    lemma_events_concat(a.children, b.children);
    lemma_leaves_concat(a.children, b.children);
    let tokens = p0.source().tokens;
    assert(tokens.subrange(p0.pos as int, a.pos) + tokens.subrange(a.pos, b.pos)
        =~= tokens.subrange(p0.pos as int, b.pos));
    assert(p2.events@ =~= p0.events@.push(Event::Open { kind: TreeKind::ErrorTree }) + events_of(
        a.with(b).children,
    ));
    assert(message_views(p2.errors@) =~= message_views(p0.errors@) + a.with(b).errors);
}

impl Parser {
    /// A parser at the beginning of `tokens`, which came from `source_path`.
    pub fn from(source_path: &String, tokens: &Vec<Token>, grammar: Grammar) -> (parser: Self)
        ensures
            parser.wf(),
            parser.pos == 0,
            parser.events@.len() == 0,
            parser.errors@.len() == 0,
            parser.source() == (Source {
                tokens: token_views(tokens@),
                path: source_path@,
                grammar,
            }),
    {
        Self {
            source_path: source_path.clone(),
            tokens: clone_tokens(tokens),
            errors: Vec::new(),
            pos: 0,
            events: Vec::new(),
            grammar,
        }
    }

    /// Opens a node whose kind is not known yet.
    fn open(&mut self) -> (mark: MarkOpened)
        requires
            old(self).wf(),
        ensures
            final(self).inside(old(self), mark, old(self).source().nothing(old(self).pos as int)),
    {
        let mark = MarkOpened { index: self.events.len() };
        self.events.push(Event::Open { kind: TreeKind::ErrorTree });
        proof {
            let nothing = old(self).source().nothing(old(self).pos as int);
            assert(events_of(nothing.children) =~= Seq::<Event>::empty());
            assert(self.events@ =~= old(self).events@.push(
                Event::Open { kind: TreeKind::ErrorTree },
            ) + events_of(nothing.children));
            assert(message_views(self.errors@) =~= message_views(old(self).errors@)
                + nothing.errors);
            assert(leaves_of(nothing.children) =~= old(self).source().tokens.subrange(
                old(self).pos as int,
                old(self).pos as int,
            ));
        }
        mark
    }

    /// Closes the node opened at `m`, and gives it its kind.
    fn close(&mut self, m: MarkOpened, kind: TreeKind, Ghost(before): Ghost<Parser>, Ghost(
        inner,
    ): Ghost<Parsed>) -> (mark: MarkClosed)
        requires
            old(self).inside(&before, m, inner),
        ensures
            final(self).step_of(&before, inner.wrap(kind)),
            mark.index == before.events@.len(),
    {
        self.events.set(m.index, Event::Open { kind });
        self.events.push(Event::Close);
        proof {
            let tree = TreeView { kind, children: inner.children };
            lemma_single(ChildView::Tree(tree));
            assert(self.events@ =~= before.events@ + tree_events(tree));
            assert(leaves_of(inner.wrap(kind).children) == leaves_of(inner.children));
        }
        MarkClosed { index: m.index }
    }

    /// Opens a node before the node that was closed at `m`, which becomes
    /// its first child.
    fn open_before(&mut self, m: MarkClosed, Ghost(before): Ghost<Parser>, Ghost(
        first,
    ): Ghost<Parsed>) -> (mark: MarkOpened)
        requires
            old(self).step_of(&before, first),
            m.index == before.events@.len(),
        ensures
            final(self).inside(&before, mark, first),
    {
        let mark = MarkOpened { index: m.index };
        self.events.insert(m.index, Event::Open { kind: TreeKind::ErrorTree });
        proof {
            assert(self.events@ =~= before.events@.push(Event::Open { kind: TreeKind::ErrorTree })
                + events_of(first.children));
        }
        mark
    }

    /// Whether only the token that ends the input is left.
    fn eof(&self) -> (b: bool)
        ensures
            b == self.source().eof(self.pos as int),
    {
        self.tokens.len() == 0 || self.pos >= self.tokens.len() - 1
    }

    /// Takes the next token.
    fn advance(&mut self)
        requires
            old(self).wf(),
            !old(self).source().eof(old(self).pos as int),
        ensures
            final(self).step_of(old(self), old(self).source().token(old(self).pos as int)),
            final(self).wf(),
    {
        assert(self.source().tokens.len() == self.tokens.len());
        self.events.push(Event::Advance);
        self.pos += 1;
        proof {
            let src = old(self).source();
            let step = src.token(old(self).pos as int);
            lemma_single(step.children[0]);
            assert(step.children =~= seq![step.children[0]]);
            assert(self.events@ =~= old(self).events@ + events_of(step.children));
            assert(message_views(self.errors@) =~= message_views(old(self).errors@) + step.errors);
            assert(leaves_of(step.children) =~= src.tokens.subrange(
                old(self).pos as int,
                old(self).pos + 1,
            ));
        }
    }

    /// The place of the next token.
    fn position(&self) -> (p: Position)
        ensures
            p == self.source().position_at(self.pos as int),
    {
        if self.pos < self.tokens.len() {
            self.tokens[self.pos].position
        } else {
            Position { line: 0, column: 0, begin: 0, end: 0 }
        }
    }

    /// The kind of the token `lookahead` places ahead.
    fn nth(&self, lookahead: usize) -> (kind: TokenKind)
        requires
            self.pos + lookahead <= usize::MAX,
        ensures
            kind@ == self.source().kind_at(self.pos + lookahead),
    {
        let index = self.pos + lookahead;
        if self.tokens.len() > 0 && index < self.tokens.len() - 1 {
            self.tokens[index].kind.clone()
        } else {
            TokenKind::Eof
        }
    }

    /// Whether the next token has the variant of `kind`.
    fn at(&self, kind: &TokenKind) -> (b: bool)
        ensures
            b == self.source().at(self.pos as int, kind@),
    {
        if self.tokens.len() > 0 && self.pos < self.tokens.len() - 1 {
            self.tokens[self.pos].kind.tag() == kind.tag()
        } else {
            TokenKind::Eof.tag() == kind.tag()
        }
    }

    /// Puts a diagnostic at the next token behind the others.
    fn record(&mut self, message: String, fix_hint: Option<String>)
        ensures
            final(self).same_input(old(self)),
            final(self).events == old(self).events,
            final(self).pos == old(self).pos,
            message_views(final(self).errors@) == message_views(old(self).errors@).push(
                old(self).source().message(
                    old(self).pos as int,
                    message@,
                    crate::text::opt_view(fix_hint),
                ),
            ),
    {
        let m = Message {
            severity: Severity::Error,
            position: self.position(),
            content: Content {
                message,
                indicator_message: Some(String::from_str("here")),
                fix_hint,
            },
            source_path: self.source_path.clone(),
        };
        push_message(&mut self.errors, m);
    }

    /// Takes the next token if it has the variant of `kind`.
    fn eat(&mut self, kind: &TokenKind) -> (taken: bool)
        requires
            old(self).wf(),
        ensures
            final(self).step_of(old(self), old(self).source().eat(old(self).pos as int, kind@)),
            final(self).wf(),
            taken == (old(self).source().at(old(self).pos as int, kind@) && !old(
                self,
            ).source().eof(old(self).pos as int)),
    {
        if self.at(kind) && !self.eof() {
            self.advance();
            true
        } else {
            proof {
                lemma_nothing(*self);
            }
            false
        }
    }

    /// Takes the next token if it has the variant of `kind`, and puts down
    /// a diagnostic if it has not.
    fn expect(&mut self, kind: &TokenKind)
        requires
            old(self).wf(),
        ensures
            final(self).step_of(old(self), old(self).source().expect(old(self).pos as int, kind@)),
            final(self).wf(),
    {
        if self.at(kind) && !self.eof() {
            self.advance();
            return ;
        }
        let mut text = String::from_str("expected '");
        text.append(kind.text().as_str());
        text.append("'");
        self.record(text, None);
        proof {
            let step = old(self).source().expect(old(self).pos as int, kind@);
            assert(events_of(step.children) =~= Seq::<Event>::empty());
            assert(self.events@ =~= old(self).events@ + events_of(step.children));
            assert(message_views(self.errors@) =~= message_views(old(self).errors@) + step.errors);
            assert(leaves_of(step.children) =~= old(self).source().tokens.subrange(
                old(self).pos as int,
                old(self).pos as int,
            ));
        }
    }

    /// Puts down a diagnostic at the next token, and takes nothing.
    fn fail(&mut self, message: String, fix_hint: Option<String>)
        requires
            old(self).wf(),
        ensures
            final(self).step_of(
                old(self),
                old(self).source().complaint(
                    old(self).pos as int,
                    message@,
                    crate::text::opt_view(fix_hint),
                ),
            ),
            final(self).wf(),
    {
        let ghost step = self.source().complaint(
            self.pos as int,
            message@,
            crate::text::opt_view(fix_hint),
        );
        self.record(message, fix_hint);
        proof {
            assert(events_of(step.children) =~= Seq::<Event>::empty());
            assert(self.events@ =~= old(self).events@ + events_of(step.children));
            assert(message_views(self.errors@) =~= message_views(old(self).errors@) + step.errors);
            assert(leaves_of(step.children) =~= old(self).source().tokens.subrange(
                old(self).pos as int,
                old(self).pos as int,
            ));
        }
    }

    /// Takes the next token under an `ErrorTree` node, with a diagnostic.
    fn advance_with_error(&mut self, message: String, fix_hint: Option<String>)
        requires
            old(self).wf(),
            !old(self).source().eof(old(self).pos as int),
        ensures
            final(self).step_of(
                old(self),
                old(self).source().complaint(
                    old(self).pos as int,
                    message@,
                    crate::text::opt_view(fix_hint),
                ).with(old(self).source().token(old(self).pos as int)).wrap(TreeKind::ErrorTree),
            ),
            final(self).wf(),
            final(self).pos == old(self).pos + 1,
    {
        let ghost p0 = *self;
        let ghost src = self.source();
        let ghost pos = self.pos as int;
        let ghost complaint = src.complaint(pos, message@, crate::text::opt_view(fix_hint));
        let m = self.open();
        let ghost p1 = *self;
        self.fail(message, fix_hint);
        proof {
            lemma_inside_first(p0, m, p1, *self, complaint);
        }
        let ghost p2 = *self;
        self.advance();
        proof {
            lemma_inside_with(p0, m, p2, *self, complaint, src.token(pos));
        }
        self.close(m, TreeKind::ErrorTree, Ghost(p0), Ghost(complaint.with(src.token(pos))));
    }
}

/// A parser that does nothing has read nothing.
pub proof fn lemma_nothing(p: Parser)
    requires
        p.wf(),
    ensures
        p.step_of(&p, p.source().nothing(p.pos as int)),
{
    let nothing = p.source().nothing(p.pos as int);
    assert(events_of(nothing.children) =~= Seq::<Event>::empty());
    assert(p.events@ =~= p.events@ + events_of(nothing.children));
    assert(message_views(p.errors@) =~= message_views(p.errors@) + nothing.errors);
    assert(leaves_of(nothing.children) =~= p.source().tokens.subrange(p.pos as int, p.pos as int));
}

/// Whether the operator `right` takes the operand between it and `left`.
pub fn right_binds_tighter(left: &TokenKind, right: &TokenKind) -> (b: bool)
    ensures
        b == binds_tighter(left@, right@),
{
    let right_is_operator = match right {
        TokenKind::Plus | TokenKind::Minus => true,
        _ => false,
    };
    let left_is_operator = match left {
        TokenKind::Plus | TokenKind::Minus => true,
        _ => false,
    };
    // There is one level of operators only, so none binds tighter than another.
    right_is_operator && !left_is_operator
}

/// What a token of this kind begins where an expression is expected.
pub fn opening_of(kind: &TokenKind) -> (o: Opening)
    ensures
        o == opening(kind@),
{
    match kind {
        TokenKind::LiteralInt(_) | TokenKind::LiteralBool(_) => Opening::Literal,
        TokenKind::Name(_) => Opening::Name,
        TokenKind::CurlyL => Opening::Block,
        TokenKind::ParenL => Opening::Parenthesis,
        TokenKind::Backslash => Opening::Abstraction,
        TokenKind::KeywordLet => Opening::Let,
        TokenKind::KeywordIf => Opening::If,
        _ => Opening::Nothing,
    }
}

fn name(p: &mut Parser) -> (mark: MarkClosed)
    requires
        old(p).wf(),
    ensures
        final(p).step_of(old(p), name_spec(old(p).source(), old(p).pos as int)),
        final(p).wf(),
        mark.index == old(p).events@.len(),
{
    let ghost p0 = *p;
    let ghost step = p.source().expect(p.pos as int, TokenKindView::Name("name"@));
    let m = p.open();
    let ghost p1 = *p;
    p.expect(&TokenKind::Name(String::from_str("name")));
    proof {
        lemma_inside_first(p0, m, p1, *p, step);
    }
    p.close(m, TreeKind::Name, Ghost(p0), Ghost(step))
}

fn type_expr(p: &mut Parser)
    requires
        old(p).wf(),
    ensures
        final(p).step_of(old(p), type_expr_spec(old(p).source(), old(p).pos as int)),
        final(p).wf(),
{
    let ghost p0 = *p;
    let ghost step = name_spec(p.source(), p.pos as int);
    let m = p.open();
    let ghost p1 = *p;
    name(p);
    proof {
        lemma_inside_first(p0, m, p1, *p, step);
    }
    p.close(m, TreeKind::TypeExpr, Ghost(p0), Ghost(step));
}

fn separator(p: &mut Parser)
    requires
        old(p).wf(),
    ensures
        final(p).step_of(old(p), separator_spec(old(p).source(), old(p).pos as int)),
        final(p).wf(),
{
    if !p.at(&TokenKind::ParenR) {
        p.expect(&TokenKind::Comma);
    } else {
        proof {
            lemma_nothing(*p);
        }
    }
}

fn param(p: &mut Parser)
    requires
        old(p).wf(),
    ensures
        final(p).step_of(old(p), param_spec(old(p).source(), old(p).pos as int)),
        final(p).wf(),
        old(p).source().at(old(p).pos as int, TokenKindView::Name("name"@)) && !old(
            p,
        ).source().eof(old(p).pos as int) ==> final(p).pos > old(p).pos,
{
    let ghost p0 = *p;
    let ghost src = p.source();
    let m = p.open();
    let ghost p1 = *p;
    name(p);
    let ghost first = name_spec(src, p0.pos as int);
    proof {
        lemma_inside_first(p0, m, p1, *p, first);
    }
    let ghost p2 = *p;
    p.expect(&TokenKind::Colon);
    let ghost colon = src.expect(first.pos, TokenKindView::Colon);
    proof {
        lemma_inside_with(p0, m, p2, *p, first, colon);
    }
    let ghost p3 = *p;
    type_expr(p);
    let ghost ty = type_expr_spec(src, colon.pos);
    proof {
        lemma_inside_with(p0, m, p3, *p, first.with(colon), ty);
    }
    let ghost p4 = *p;
    separator(p);
    let ghost comma = separator_spec(src, ty.pos);
    proof {
        lemma_inside_with(p0, m, p4, *p, first.with(colon).with(ty), comma);
    }
    p.close(m, TreeKind::Param, Ghost(p0), Ghost(first.with(colon).with(ty).with(comma)));
}

fn params(p: &mut Parser)
    requires
        old(p).wf(),
    ensures
        final(p).step_of(old(p), params_spec(old(p).source(), old(p).pos as int)),
        final(p).wf(),
{
    let ghost p0 = *p;
    let ghost src = p.source();
    let m = p.open();
    let ghost p1 = *p;
    p.expect(&TokenKind::ParenL);
    let ghost mut so_far = src.expect(p0.pos as int, TokenKindView::ParenL);
    proof {
        lemma_inside_first(p0, m, p1, *p, so_far);
    }
    while p.at(&TokenKind::Name(String::from_str("name"))) && !p.eof()
        invariant
            p.wf(),
            p.inside(&p0, m, so_far),
            src == p0.source(),
            param_list_spec(src, src.expect(p0.pos as int, TokenKindView::ParenL))
                == param_list_spec(src, so_far),
        decreases src.remaining(p.pos as int),
    {
        let ghost q = *p;
        param(p);
        proof {
            let next = param_spec(src, q.pos as int);
            lemma_inside_with(p0, m, q, *p, so_far, next);
            assert(so_far.with(next) == so_far.and(next, behind(next.pos, so_far.pos)));
            so_far = so_far.with(next);
        }
    }
    let ghost q = *p;
    p.expect(&TokenKind::ParenR);
    proof {
        lemma_inside_with(p0, m, q, *p, so_far, src.expect(so_far.pos, TokenKindView::ParenR));
    }
    p.close(
        m,
        TreeKind::Params,
        Ghost(p0),
        Ghost(so_far.with(src.expect(so_far.pos, TokenKindView::ParenR))),
    );
}

fn block(p: &mut Parser) -> (mark: MarkClosed)
    requires
        old(p).wf(),
        !old(p).source().eof(old(p).pos as int),
    ensures
        final(p).step_of(old(p), block_spec(old(p).source(), old(p).pos as int)),
        final(p).wf(),
        mark.index == old(p).events@.len(),
        final(p).pos > old(p).pos,
    decreases old(p).source().remaining(old(p).pos as int), 0nat,
{
    let ghost p0 = *p;
    let ghost src = p.source();
    let ghost pos = p.pos as int;
    let m = p.open();
    let ghost p1 = *p;
    p.advance();
    let ghost open = src.token(pos);
    proof {
        lemma_inside_first(p0, m, p1, *p, open);
    }
    let ghost p2 = *p;
    statement(p);
    let ghost body = statement_spec(src, pos + 1);
    proof {
        lemma_inside_with(p0, m, p2, *p, open, body);
    }
    let ghost p3 = *p;
    p.expect(&TokenKind::CurlyR);
    let ghost close = src.expect(body.pos, TokenKindView::CurlyR);
    proof {
        lemma_inside_with(p0, m, p3, *p, open.with(body), close);
    }
    p.close(m, TreeKind::Block, Ghost(p0), Ghost(open.with(body).with(close)))
}

fn parenthesized(p: &mut Parser) -> (mark: MarkClosed)
    requires
        old(p).wf(),
        !old(p).source().eof(old(p).pos as int),
    ensures
        final(p).step_of(old(p), paren_spec(old(p).source(), old(p).pos as int)),
        final(p).wf(),
        mark.index == old(p).events@.len(),
        final(p).pos > old(p).pos,
    decreases old(p).source().remaining(old(p).pos as int), 0nat,
{
    let ghost p0 = *p;
    let ghost src = p.source();
    let ghost pos = p.pos as int;
    let m = p.open();
    let ghost p1 = *p;
    p.advance();
    let ghost open = src.token(pos);
    proof {
        lemma_inside_first(p0, m, p1, *p, open);
    }
    let ghost p2 = *p;
    expression(p);
    let ghost inner = expression_spec(src, pos + 1);
    proof {
        lemma_inside_with(p0, m, p2, *p, open, inner);
    }
    let ghost p3 = *p;
    p.expect(&TokenKind::ParenR);
    let ghost close = src.expect(inner.pos, TokenKindView::ParenR);
    proof {
        lemma_inside_with(p0, m, p3, *p, open.with(inner), close);
    }
    p.close(m, TreeKind::Expr, Ghost(p0), Ghost(open.with(inner).with(close)))
}

fn abstraction(p: &mut Parser) -> (mark: MarkClosed)
    requires
        old(p).wf(),
        !old(p).source().eof(old(p).pos as int),
    ensures
        final(p).step_of(old(p), abstraction_spec(old(p).source(), old(p).pos as int)),
        final(p).wf(),
        mark.index == old(p).events@.len(),
        final(p).pos > old(p).pos,
    decreases old(p).source().remaining(old(p).pos as int), 0nat,
{
    let ghost p0 = *p;
    let ghost src = p.source();
    let ghost pos = p.pos as int;
    let m = p.open();
    let ghost p1 = *p;
    p.advance();
    let ghost open = src.token(pos);
    proof {
        lemma_inside_first(p0, m, p1, *p, open);
    }
    let ghost p2 = *p;
    name(p);
    let ghost parameter = name_spec(src, pos + 1);
    proof {
        lemma_inside_with(p0, m, p2, *p, open, parameter);
    }
    let ghost p3 = *p;
    p.expect(&TokenKind::Arrow);
    let ghost arrow = src.expect(parameter.pos, TokenKindView::Arrow);
    proof {
        lemma_inside_with(p0, m, p3, *p, open.with(parameter), arrow);
    }
    let ghost p4 = *p;
    expression(p);
    let ghost body = expression_spec(src, arrow.pos);
    proof {
        lemma_inside_with(p0, m, p4, *p, open.with(parameter).with(arrow), body);
    }
    p.close(
        m,
        TreeKind::Abstraction,
        Ghost(p0),
        Ghost(open.with(parameter).with(arrow).with(body)),
    )
}

fn let_in(p: &mut Parser) -> (mark: MarkClosed)
    requires
        old(p).wf(),
        !old(p).source().eof(old(p).pos as int),
    ensures
        final(p).step_of(old(p), let_spec(old(p).source(), old(p).pos as int)),
        final(p).wf(),
        mark.index == old(p).events@.len(),
        final(p).pos > old(p).pos,
    decreases old(p).source().remaining(old(p).pos as int), 0nat,
{
    let ghost p0 = *p;
    let ghost src = p.source();
    let ghost pos = p.pos as int;
    let m = p.open();
    let ghost p1 = *p;
    p.advance();
    let ghost open = src.token(pos);
    proof {
        lemma_inside_first(p0, m, p1, *p, open);
    }
    let ghost p2 = *p;
    name(p);
    let ghost bound_name = name_spec(src, pos + 1);
    proof {
        lemma_inside_with(p0, m, p2, *p, open, bound_name);
    }
    let ghost p3 = *p;
    p.expect(&TokenKind::Equal);
    let ghost equal = src.expect(bound_name.pos, TokenKindView::Equal);
    proof {
        lemma_inside_with(p0, m, p3, *p, open.with(bound_name), equal);
    }
    let ghost p4 = *p;
    expression(p);
    let ghost bound = expression_spec(src, equal.pos);
    proof {
        lemma_inside_with(p0, m, p4, *p, open.with(bound_name).with(equal), bound);
    }
    let ghost p5 = *p;
    p.expect(&TokenKind::KeywordIn);
    let ghost kw_in = src.expect(bound.pos, TokenKindView::KeywordIn);
    let ghost before_body = open.with(bound_name).with(equal).with(bound).with(kw_in);
    proof {
        lemma_inside_with(p0, m, p5, *p, open.with(bound_name).with(equal).with(bound), kw_in);
    }
    let ghost p6 = *p;
    expression(p);
    let ghost body = expression_spec(src, behind(kw_in.pos, pos));
    proof {
        lemma_inside_with(p0, m, p6, *p, before_body, body);
    }
    p.close(m, TreeKind::Let, Ghost(p0), Ghost(before_body.with(body)))
}

fn if_else(p: &mut Parser) -> (mark: MarkClosed)
    requires
        old(p).wf(),
        !old(p).source().eof(old(p).pos as int),
    ensures
        final(p).step_of(old(p), if_spec(old(p).source(), old(p).pos as int)),
        final(p).wf(),
        mark.index == old(p).events@.len(),
        final(p).pos > old(p).pos,
    decreases old(p).source().remaining(old(p).pos as int), 0nat,
{
    let ghost p0 = *p;
    let ghost src = p.source();
    let ghost pos = p.pos as int;
    let m = p.open();
    let ghost p1 = *p;
    p.advance();
    let ghost open = src.token(pos);
    proof {
        lemma_inside_first(p0, m, p1, *p, open);
    }
    let ghost p2 = *p;
    expression(p);
    let ghost condition = expression_spec(src, pos + 1);
    proof {
        lemma_inside_with(p0, m, p2, *p, open, condition);
    }
    let ghost p3 = *p;
    p.expect(&TokenKind::KeywordThen);
    let ghost kw_then = src.expect(condition.pos, TokenKindView::KeywordThen);
    proof {
        lemma_inside_with(p0, m, p3, *p, open.with(condition), kw_then);
    }
    let ghost p4 = *p;
    expression(p);
    let ghost yes = expression_spec(src, behind(kw_then.pos, pos));
    proof {
        lemma_inside_with(p0, m, p4, *p, open.with(condition).with(kw_then), yes);
    }
    let ghost p5 = *p;
    p.expect(&TokenKind::KeywordElse);
    let ghost kw_else = src.expect(yes.pos, TokenKindView::KeywordElse);
    let ghost before_no = open.with(condition).with(kw_then).with(yes).with(kw_else);
    proof {
        lemma_inside_with(p0, m, p5, *p, open.with(condition).with(kw_then).with(yes), kw_else);
    }
    let ghost p6 = *p;
    expression(p);
    let ghost no = expression_spec(src, behind(kw_else.pos, pos));
    proof {
        lemma_inside_with(p0, m, p6, *p, before_no, no);
    }
    p.close(m, TreeKind::If, Ghost(p0), Ghost(before_no.with(no)))
}

fn missing_expression(p: &mut Parser) -> (mark: MarkClosed)
    requires
        old(p).wf(),
    ensures
        final(p).step_of(old(p), missing_expression_spec(old(p).source(), old(p).pos as int)),
        final(p).wf(),
        mark.index == old(p).events@.len(),
        !old(p).source().eof(old(p).pos as int) ==> final(p).pos > old(p).pos,
{
    let ghost p0 = *p;
    let ghost src = p.source();
    let ghost pos = p.pos as int;
    let m = p.open();
    let ghost p1 = *p;
    p.fail(String::from_str("expected expression"), None);
    let ghost failure = src.failure(pos, "expected expression"@);
    proof {
        lemma_inside_first(p0, m, p1, *p, failure);
    }
    let ghost p2 = *p;
    if !p.eof() {
        p.advance();
    } else {
        proof {
            lemma_nothing(*p);
        }
    }
    let ghost taken = if src.eof(pos) {
        src.nothing(pos)
    } else {
        src.token(pos)
    };
    proof {
        lemma_inside_with(p0, m, p2, *p, failure, taken);
    }
    p.close(m, TreeKind::ErrorTree, Ghost(p0), Ghost(failure.with(taken)))
}

fn leaf(p: &mut Parser, kind: TreeKind) -> (mark: MarkClosed)
    requires
        old(p).wf(),
        !old(p).source().eof(old(p).pos as int),
    ensures
        final(p).step_of(old(p), old(p).source().token(old(p).pos as int).wrap(kind)),
        final(p).wf(),
        mark.index == old(p).events@.len(),
        final(p).pos > old(p).pos,
{
    let ghost p0 = *p;
    let ghost step = p.source().token(p.pos as int);
    let m = p.open();
    let ghost p1 = *p;
    p.advance();
    proof {
        lemma_inside_first(p0, m, p1, *p, step);
    }
    p.close(m, kind, Ghost(p0), Ghost(step))
}

fn expr_delimited(p: &mut Parser) -> (mark: MarkClosed)
    requires
        old(p).wf(),
    ensures
        final(p).step_of(old(p), expr_delimited_spec(old(p).source(), old(p).pos as int)),
        final(p).wf(),
        mark.index == old(p).events@.len(),
        !old(p).source().eof(old(p).pos as int) ==> final(p).pos > old(p).pos,
    decreases old(p).source().remaining(old(p).pos as int), 1nat,
{
    let next = p.nth(0);
    match opening_of(&next) {
        Opening::Literal => leaf(p, TreeKind::Literal),
        Opening::Name => leaf(p, TreeKind::Name),
        Opening::Block => block(p),
        Opening::Parenthesis => parenthesized(p),
        Opening::Abstraction => abstraction(p),
        Opening::Let => let_in(p),
        Opening::If => if_else(p),
        Opening::Nothing => missing_expression(p),
    }
}

fn arg_list(p: &mut Parser)
    requires
        old(p).wf(),
    ensures
        final(p).step_of(old(p), arg_list_spec(old(p).source(), old(p).pos as int)),
        final(p).wf(),
        old(p).source().at(old(p).pos as int, TokenKindView::ParenL) && !old(p).source().eof(
            old(p).pos as int,
        ) ==> final(p).pos > old(p).pos,
    decreases old(p).source().remaining(old(p).pos as int), 1nat,
{
    let ghost p0 = *p;
    let ghost src = p.source();
    let ghost pos = p.pos as int;
    let m = p.open();
    let ghost p1 = *p;
    if !(p.at(&TokenKind::ParenL) && !p.eof()) {
        p.expect(&TokenKind::ParenL);
        proof {
            lemma_inside_first(p0, m, p1, *p, src.expect(pos, TokenKindView::ParenL));
        }
        p.close(m, TreeKind::Args, Ghost(p0), Ghost(src.expect(pos, TokenKindView::ParenL)));
        return ;
    }
    p.advance();
    let ghost mut so_far = src.token(pos);
    proof {
        lemma_inside_first(p0, m, p1, *p, so_far);
    }
    while !p.at(&TokenKind::ParenR) && !p.eof()
        invariant
            p.wf(),
            p.inside(&p0, m, so_far),
            src == p0.source(),
            p0 == *old(p),
            pos == p0.pos,
            pos < p.pos,
            !src.eof(pos),
            args_spec(src, src.token(pos)) == args_spec(src, so_far),
        decreases src.remaining(p.pos as int),
    {
        let ghost q = *p;
        arg(p);
        proof {
            let next = arg_spec(src, q.pos as int);
            lemma_inside_with(p0, m, q, *p, so_far, next);
            assert(so_far.with(next) == so_far.and(next, behind(next.pos, so_far.pos)));
            so_far = so_far.with(next);
        }
    }
    let ghost q = *p;
    p.expect(&TokenKind::ParenR);
    proof {
        lemma_inside_with(p0, m, q, *p, so_far, src.expect(so_far.pos, TokenKindView::ParenR));
    }
    p.close(
        m,
        TreeKind::Args,
        Ghost(p0),
        Ghost(so_far.with(src.expect(so_far.pos, TokenKindView::ParenR))),
    );
}

fn arg(p: &mut Parser)
    requires
        old(p).wf(),
    ensures
        final(p).step_of(old(p), arg_spec(old(p).source(), old(p).pos as int)),
        final(p).wf(),
        !old(p).source().eof(old(p).pos as int) ==> final(p).pos > old(p).pos,
    decreases old(p).source().remaining(old(p).pos as int), 5nat,
{
    let ghost p0 = *p;
    let ghost src = p.source();
    let ghost pos = p.pos as int;
    let m = p.open();
    let ghost p1 = *p;
    expression(p);
    let ghost value = expression_spec(src, pos);
    proof {
        lemma_inside_first(p0, m, p1, *p, value);
    }
    let ghost p2 = *p;
    separator(p);
    proof {
        lemma_inside_with(p0, m, p2, *p, value, separator_spec(src, value.pos));
    }
    p.close(m, TreeKind::Arg, Ghost(p0), Ghost(value.with(separator_spec(src, value.pos))));
}

fn expr_rec(p: &mut Parser, left: &TokenKind) -> (mark: MarkClosed)
    requires
        old(p).wf(),
    ensures
        final(p).step_of(old(p), expr_rec_spec(old(p).source(), old(p).pos as int, left@)),
        final(p).wf(),
        mark.index == old(p).events@.len(),
        !old(p).source().eof(old(p).pos as int) ==> final(p).pos > old(p).pos,
    decreases old(p).source().remaining(old(p).pos as int), 3nat,
{
    let ghost p0 = *p;
    let ghost src = p.source();
    let ghost pos = p.pos as int;
    let mut lhs = expr_delimited(p);
    let ghost mut operand = expr_delimited_spec(src, pos);
    assert(operand == operand.from(pos));
    if let Grammar::Definitions = p.grammar {
        while p.at(&TokenKind::ParenL) && !p.eof()
            invariant
                p.wf(),
                p.step_of(&p0, operand),
                p0 == *old(p),
                src == p0.source(),
                pos == p0.pos,
                lhs.index == p0.events@.len(),
                !src.eof(pos) ==> p.pos > pos,
                call_loop_spec(src, expr_delimited_spec(src, pos).from(pos)) == call_loop_spec(
                    src,
                    operand,
                ),
            decreases src.remaining(p.pos as int),
        {
            let m = p.open_before(lhs, Ghost(p0), Ghost(operand));
            let ghost q = *p;
            arg_list(p);
            let ghost args = arg_list_spec(src, q.pos as int);
            proof {
                lemma_inside_with(p0, m, q, *p, operand, args);
                assert(operand.with(args) == operand.and(args, behind(args.pos, operand.pos)));
            }
            lhs = p.close(m, TreeKind::Call, Ghost(p0), Ghost(operand.with(args)));
            proof {
                operand = operand.with(args).wrap(TreeKind::Call);
            }
        }
        assert(operand == call_loop_spec(src, expr_delimited_spec(src, pos).from(pos)).from(pos));
    }
    let ghost called = operand;
    loop
        invariant
            p.wf(),
            p.step_of(&p0, operand),
            src == p0.source(),
            p0 == *old(p),
            pos == p0.pos,
            lhs.index == p0.events@.len(),
            !src.eof(pos) ==> p.pos > pos,
            binary_loop_spec(src, left@, called) == binary_loop_spec(src, left@, operand),
        ensures
            p.wf(),
            p.step_of(&p0, binary_loop_spec(src, left@, called)),
            lhs.index == p0.events@.len(),
            !src.eof(pos) ==> p.pos > pos,
        decreases src.remaining(p.pos as int),
    {
        let right = p.nth(0);
        if right_binds_tighter(left, &right) {
            let m = p.open_before(lhs, Ghost(p0), Ghost(operand));
            let ghost q = *p;
            p.advance();
            let ghost operator = src.token(q.pos as int);
            proof {
                lemma_inside_with(p0, m, q, *p, operand, operator);
            }
            let ghost q2 = *p;
            expr_rec(p, &right);
            let ghost rhs = expr_rec_spec(src, q.pos + 1, right@);
            proof {
                lemma_inside_with(p0, m, q2, *p, operand.with(operator), rhs);
                assert(operand.with(operator).with(rhs) == operand.with(operator).and(
                    rhs,
                    behind(rhs.pos, operand.pos),
                ));
            }
            lhs = p.close(
                m,
                TreeKind::Binary,
                Ghost(p0),
                Ghost(operand.with(operator).with(rhs)),
            );
            proof {
                operand = operand.with(operator).with(rhs).wrap(TreeKind::Binary);
            }
        } else {
            break ;
        }
    }
    lhs
}

fn expression(p: &mut Parser) -> (mark: MarkClosed)
    requires
        old(p).wf(),
    ensures
        final(p).step_of(old(p), expression_spec(old(p).source(), old(p).pos as int)),
        final(p).wf(),
        mark.index == old(p).events@.len(),
        !old(p).source().eof(old(p).pos as int) ==> final(p).pos > old(p).pos,
    decreases old(p).source().remaining(old(p).pos as int), 4nat,
{
    let ghost p0 = *p;
    let ghost src = p.source();
    let ghost pos = p.pos as int;
    let mut lhs = expr_rec(p, &TokenKind::Eof);
    let ghost first = expr_rec_spec(src, pos, TokenKindView::Eof);
    let ghost mut function = first;
    assert(first == first.from(pos));
    if let Grammar::Expression = p.grammar {
        loop
            invariant
                p.wf(),
                p.step_of(&p0, function),
                src == p0.source(),
                p0 == *old(p),
                pos == p0.pos,
                lhs.index == p0.events@.len(),
                !src.eof(pos) ==> p.pos > pos,
                application_loop_spec(src, first) == application_loop_spec(src, function),
            ensures
                p.wf(),
                p.step_of(&p0, application_loop_spec(src, first)),
                lhs.index == p0.events@.len(),
                !src.eof(pos) ==> p.pos > pos,
            decreases src.remaining(p.pos as int),
        {
            let next = p.nth(0);
            if opening_of(&next) != Opening::Nothing {
                let m = p.open_before(lhs, Ghost(p0), Ghost(function));
                let ghost q = *p;
                expr_delimited(p);
                let ghost argument = expr_delimited_spec(src, q.pos as int);
                proof {
                    lemma_inside_with(p0, m, q, *p, function, argument);
                    assert(function.with(argument) == function.and(
                        argument,
                        behind(argument.pos, function.pos),
                    ));
                }
                lhs = p.close(
                    m,
                    TreeKind::Application,
                    Ghost(p0),
                    Ghost(function.with(argument)),
                );
                proof {
                    function = function.with(argument).wrap(TreeKind::Application);
                }
            } else {
                break ;
            }
        }
    }
    lhs
}

fn statement(p: &mut Parser)
    requires
        old(p).wf(),
    ensures
        final(p).step_of(old(p), statement_spec(old(p).source(), old(p).pos as int)),
        final(p).wf(),
    decreases old(p).source().remaining(old(p).pos as int), 5nat,
{
    let ghost p0 = *p;
    let ghost src = p.source();
    let ghost pos = p.pos as int;
    let ghost mut base = *p;
    let ghost mut done = src.nothing(pos);
    proof {
        lemma_nothing(*p);
    }
    let mut lhs = expression(p);
    let ghost mut last = expression_spec(src, pos);
    assert(last == last.from(pos));
    while p.at(&TokenKind::Semi) && !p.eof()
        invariant
            p.wf(),
            base.wf(),
            base.step_of(&p0, done),
            p.step_of(&base, last),
            src == p0.source(),
            p0 == *old(p),
            pos == p0.pos,
            pos <= base.pos,
            lhs.index == base.events@.len(),
            statement_spec(src, pos) == statement_loop_spec(src, done, last),
        decreases src.remaining(p.pos as int),
    {
        let m = p.open_before(lhs, Ghost(base), Ghost(last));
        let ghost q = *p;
        p.expect(&TokenKind::Semi);
        let ghost semi = src.token(q.pos as int);
        proof {
            lemma_inside_with(base, m, q, *p, last, semi);
        }
        p.close(m, TreeKind::Statement, Ghost(base), Ghost(last.with(semi)));
        proof {
            let closed = last.with(semi).wrap(TreeKind::Statement);
            lemma_step_with(p0, base, *p, done, closed);
            done = done.with(closed);
            base = *p;
        }
        let ghost from = p.pos as int;
        lhs = expression(p);
        proof {
            last = expression_spec(src, from);
            assert(last == last.from(from));
        }
    }
    proof {
        lemma_step_with(p0, base, *p, done, last);
    }
}

fn def(p: &mut Parser)
    requires
        old(p).wf(),
    ensures
        final(p).step_of(old(p), def_spec(old(p).source(), old(p).pos as int)),
        final(p).wf(),
        old(p).source().at(old(p).pos as int, TokenKindView::KeywordDef) && !old(p).source().eof(
            old(p).pos as int,
        ) ==> final(p).pos > old(p).pos,
{
    let ghost p0 = *p;
    let ghost src = p.source();
    let ghost pos = p.pos as int;
    let m = p.open();
    let ghost p1 = *p;
    p.expect(&TokenKind::KeywordDef);
    let ghost keyword = src.expect(pos, TokenKindView::KeywordDef);
    proof {
        lemma_inside_first(p0, m, p1, *p, keyword);
    }
    let ghost p2 = *p;
    name(p);
    let ghost function = name_spec(src, keyword.pos);
    proof {
        lemma_inside_with(p0, m, p2, *p, keyword, function);
    }
    let ghost p3 = *p;
    if p.at(&TokenKind::ParenL) {
        params(p);
    } else {
        proof {
            lemma_nothing(*p);
        }
    }
    let ghost parameters = def_params_spec(src, function.pos);
    proof {
        lemma_inside_with(p0, m, p3, *p, keyword.with(function), parameters);
    }
    let ghost p4 = *p;
    if p.eat(&TokenKind::Colon) {
        let ghost q = *p;
        type_expr(p);
        proof {
            lemma_step_with(
                p4,
                q,
                *p,
                src.eat(p4.pos as int, TokenKindView::Colon),
                type_expr_spec(src, q.pos as int),
            );
        }
    }
    let ghost ty = def_type_spec(src, parameters.pos);
    proof {
        lemma_inside_with(p0, m, p4, *p, keyword.with(function).with(parameters), ty);
    }
    let ghost p5 = *p;
    if p.eat(&TokenKind::CurlyL) {
        let ghost q = *p;
        statement(p);
        let ghost q2 = *p;
        p.expect(&TokenKind::CurlyR);
        proof {
            let curly = src.eat(p5.pos as int, TokenKindView::CurlyL);
            let body = statement_spec(src, q.pos as int);
            lemma_step_with(p5, q, q2, curly, body);
            lemma_step_with(
                p5,
                q2,
                *p,
                curly.with(body),
                src.expect(body.pos, TokenKindView::CurlyR),
            );
        }
    }
    let ghost body = def_body_spec(src, ty.pos);
    proof {
        lemma_inside_with(p0, m, p5, *p, keyword.with(function).with(parameters).with(ty), body);
    }
    p.close(
        m,
        TreeKind::Definition,
        Ghost(p0),
        Ghost(keyword.with(function).with(parameters).with(ty).with(body)),
    );
}

fn file(p: &mut Parser)
    requires
        old(p).wf(),
        old(p).pos == 0,
    ensures
        final(p).step_of(old(p), file_spec(old(p).source())),
        final(p).wf(),
        final(p).source().eof(final(p).pos as int),
{
    let ghost p0 = *p;
    let ghost src = p.source();
    let m = p.open();
    let ghost p1 = *p;
    let ghost mut so_far = src.nothing(0);
    match p.grammar {
        Grammar::Definitions => {
            while !p.eof()
                invariant
                    p.wf(),
                    p.inside(&p0, m, so_far),
                    src == p0.source(),
                    src.grammar == Grammar::Definitions,
                    defs_spec(src, src.nothing(0)) == defs_spec(src, so_far),
                decreases src.remaining(p.pos as int),
            {
                let ghost q = *p;
                if p.at(&TokenKind::KeywordDef) {
                    def(p);
                    proof {
                        let next = def_spec(src, q.pos as int);
                        lemma_inside_with(p0, m, q, *p, so_far, next);
                        assert(so_far.with(next) == so_far.and(
                            next,
                            behind(next.pos, so_far.pos),
                        ));
                        so_far = so_far.with(next);
                    }
                } else {
                    p.advance_with_error(
                        String::from_str("expected a function"),
                        Some(String::from_str("define a function using `def`")),
                    );
                    proof {
                        let next = stray_token_spec(src, q.pos as int);
                        lemma_inside_with(p0, m, q, *p, so_far, next);
                        so_far = so_far.with(next);
                    }
                }
            }
        },
        Grammar::Expression => {
            expression(p);
            proof {
                let first = expression_spec(src, 0);
                lemma_inside_first(p0, m, p1, *p, first);
                assert(first == first.from(0));
                so_far = first;
            }
            while !p.eof()
                invariant
                    p.wf(),
                    p.inside(&p0, m, so_far),
                    src == p0.source(),
                    src.grammar == Grammar::Expression,
                    trailing_spec(src, expression_spec(src, 0).from(0)) == trailing_spec(
                        src,
                        so_far,
                    ),
                decreases src.remaining(p.pos as int),
            {
                let ghost q = *p;
                p.advance_with_error(String::from_str("expected the end of the input"), None);
                proof {
                    let next = trailing_token_spec(src, q.pos as int);
                    lemma_inside_with(p0, m, q, *p, so_far, next);
                    so_far = so_far.with(next);
                }
            }
        },
    }
    p.close(m, TreeKind::File, Ghost(p0), Ghost(so_far));
}

/// The open nodes after `c` has been put under the innermost of them.
pub open spec fn add_child(stack: Seq<TreeView>, c: ChildView) -> Seq<TreeView> {
    stack.drop_last().push(
        TreeView { kind: stack.last().kind, children: stack.last().children.push(c) },
    )
}

/// The open nodes after `children` have been put under the innermost of them.
pub open spec fn add_children(stack: Seq<TreeView>, children: Seq<ChildView>) -> Seq<TreeView> {
    stack.drop_last().push(
        TreeView { kind: stack.last().kind, children: stack.last().children + children },
    )
}

/// What the events make of the open nodes `stack`, outermost first, when
/// the next token to take is `tokens[next]`: an opening puts an empty node
/// on the stack, a token goes under the innermost node, and a closing takes
/// the innermost node off and puts it under the one around it. `None` where
/// a node or a token is missing.
pub open spec fn reduce(
    events: Seq<Event>,
    tokens: Seq<TokenView>,
    stack: Seq<TreeView>,
    next: int,
) -> Option<(Seq<TreeView>, int)>
    decreases events.len(),
{
    if events.len() == 0 {
        Some((stack, next))
    } else {
        let rest = events.drop_first();
        match events[0] {
            Event::Open { kind } => reduce(
                rest,
                tokens,
                stack.push(TreeView { kind, children: seq![] }),
                next,
            ),
            Event::Close => if stack.len() >= 2 {
                reduce(
                    rest,
                    tokens,
                    add_child(stack.drop_last(), ChildView::Tree(stack.last())),
                    next,
                )
            } else {
                None
            },
            Event::Advance => if stack.len() >= 1 && 0 <= next < tokens.len() {
                reduce(rest, tokens, add_child(stack, ChildView::Token(tokens[next])), next + 1)
            } else {
                None
            },
        }
    }
}

/// The tree that a list of events builds: the events but the closing of the
/// root, which comes last, must leave the root as the one open node.
pub open spec fn build_spec(events: Seq<Event>, tokens: Seq<TokenView>) -> Option<TreeView> {
    if events.len() >= 1 && events.last() == Event::Close {
        match reduce(events.drop_last(), tokens, seq![], 0) {
            Some((stack, _)) => if stack.len() == 1 {
                Some(stack[0])
            } else {
                None
            },
            None => None,
        }
    } else {
        None
    }
}

/// A child is written by at least one event.
pub proof fn lemma_child_events_len(c: ChildView)
    ensures
        child_events(c).len() >= 1,
        c matches ChildView::Tree(t) ==> child_events(c).len() == events_of(t.children).len() + 2,
{
}

/// The events that write a row of children put these children under the
/// innermost open node, and take their tokens in order.
pub proof fn lemma_reduce_children(
    children: Seq<ChildView>,
    rest: Seq<Event>,
    tokens: Seq<TokenView>,
    stack: Seq<TreeView>,
    next: int,
)
    requires
        stack.len() >= 1,
        0 <= next,
        next + leaves_of(children).len() <= tokens.len(),
        leaves_of(children) == tokens.subrange(next, next + leaves_of(children).len()),
    ensures
        reduce(events_of(children) + rest, tokens, stack, next) == reduce(
            rest,
            tokens,
            add_children(stack, children),
            next + leaves_of(children).len(),
        ),
    decreases events_of(children).len(),
{
    if children.len() == 0 {
        assert(events_of(children) + rest =~= rest);
        assert(add_children(stack, children) =~= stack) by {
            assert(stack.last().children + children =~= stack.last().children);
            assert(TreeView {
                kind: stack.last().kind,
                children: stack.last().children,
            } == stack.last());
        }
    } else {
        let front = children.drop_last();
        let last = children.last();
        let n_front = leaves_of(front).len() as int;
        let middle = next + n_front;
        lemma_child_events_len(last);
        assert(leaves_of(children) == leaves_of(front) + last.leaves());
        assert(leaves_of(front) =~= tokens.subrange(next, middle)) by {
            assert(leaves_of(front) =~= leaves_of(children).subrange(0, n_front));
        }
        assert(last.leaves() =~= tokens.subrange(middle, middle + last.leaves().len())) by {
            assert(last.leaves() =~= leaves_of(children).subrange(
                n_front,
                leaves_of(children).len() as int,
            ));
        }
        let after = child_events(last) + rest;
        assert(events_of(children) + rest =~= events_of(front) + after);
        lemma_reduce_children(front, after, tokens, stack, next);
        let inner = add_children(stack, front);
        assert(add_children(stack, children) =~= add_child(inner, last)) by {
            assert(stack.last().children + children =~= (stack.last().children + front).push(
                last,
            ));
        }
        match last {
            ChildView::Token(t) => {
                assert(after[0] == Event::Advance);
                assert(after.drop_first() =~= rest);
                assert(tokens[middle] == last.leaves()[0]);
            },
            ChildView::Tree(t) => {
                let opened = inner.push(TreeView { kind: t.kind, children: seq![] });
                let closing = seq![Event::Close] + rest;
                assert(after[0] == Event::Open { kind: t.kind });
                assert(after.drop_first() =~= events_of(t.children) + closing);
                assert(last.leaves() == leaves_of(t.children));
                lemma_reduce_children(t.children, closing, tokens, opened, middle);
                let filled = add_children(opened, t.children);
                assert(filled.last() == t) by {
                    assert(Seq::<ChildView>::empty() + t.children =~= t.children);
                }
                assert(filled.drop_last() =~= inner);
                assert(closing[0] == Event::Close);
                assert(closing.drop_first() =~= rest);
            },
        }
    }
}

/// The events that write a tree build that tree, if its tokens are the
/// first of the input.
pub proof fn lemma_build_tree(tree: TreeView, tokens: Seq<TokenView>)
    requires
        tree.leaves().len() <= tokens.len(),
        tree.leaves() == tokens.subrange(0, tree.leaves().len() as int),
    ensures
        build_spec(tree_events(tree), tokens) == Some(tree),
{
    let events = tree_events(tree);
    let body = events.drop_last();
    assert(events.last() == Event::Close);
    assert(body =~= seq![Event::Open { kind: tree.kind }] + events_of(tree.children));
    assert(body[0] == Event::Open { kind: tree.kind });
    assert(body.drop_first() =~= events_of(tree.children) + Seq::<Event>::empty());
    let opened = Seq::<TreeView>::empty().push(TreeView { kind: tree.kind, children: seq![] });
    lemma_reduce_children(tree.children, Seq::empty(), tokens, opened, 0);
    let filled = add_children(opened, tree.children);
    assert(filled[0] == tree) by {
        assert(Seq::<ChildView>::empty() + tree.children =~= tree.children);
    }
}

/// The models of a list of trees, in order.
pub open spec fn tree_views(trees: Seq<Tree>) -> Seq<TreeView> {
    trees.map_values(|t: Tree| t@)
}

/// Puts `child` under the innermost of the open nodes in `stack`.
fn put_child(stack: &mut Vec<Tree>, child: Child)
    requires
        old(stack).len() >= 1,
    ensures
        tree_views(final(stack)@) == add_child(tree_views(old(stack)@), child@),
{
    let ghost before = tree_views(stack@);
    let mut parent = match stack.pop() {
        Some(parent) => parent,
        None => Tree { kind: TreeKind::ErrorTree, children: Vec::new() },
    };
    let ghost parent_before = parent@;
    parent.children.push(child);
    assert(parent@.children =~= parent_before.children.push(child@));
    stack.push(parent);
    assert(tree_views(stack@) =~= add_child(before, child@));
}

impl Parser {
    /// The tree that the events so far build; `None` where they do not fit
    /// together.
    pub fn build_tree(&self) -> (r: Option<Tree>)
        ensures
            match build_spec(self.events@, self.source().tokens) {
                Some(t) => r is Some && r->Some_0@ == t,
                None => r is None,
            },
    {
        let n = self.events.len();
        if n == 0 {
            return None;
        }
        match self.events[n - 1] {
            Event::Close => {},
            _ => {
                return None;
            },
        }
        let ghost body = self.events@.drop_last();
        let ghost tokens = self.source().tokens;
        let mut stack: Vec<Tree> = Vec::new();
        let mut next: usize = 0;
        let mut i: usize = 0;
        assert(body.skip(0) =~= body);
        assert(tree_views(stack@) =~= Seq::<TreeView>::empty());
        while i < n - 1
            invariant
                n == self.events.len(),
                n >= 1,
                i <= n - 1,
                body == self.events@.drop_last(),
                tokens == self.source().tokens,
                next <= self.tokens.len(),
                reduce(body, tokens, seq![], 0) == reduce(
                    body.skip(i as int),
                    tokens,
                    tree_views(stack@),
                    next as int,
                ),
            decreases n - 1 - i,
        {
            proof {
                assert(body.skip(i as int)[0] == self.events@[i as int]);
                assert(body.skip(i as int).drop_first() =~= body.skip(i + 1));
                assert(tokens.len() == self.tokens.len());
            }
            let ghost before = tree_views(stack@);
            match self.events[i] {
                Event::Open { kind } => {
                    stack.push(Tree { kind, children: Vec::new() });
                    proof {
                        let opened = stack@.last()@;
                        assert(opened.children =~= Seq::<ChildView>::empty());
                        assert(tree_views(stack@) =~= before.push(
                            TreeView { kind, children: seq![] },
                        ));
                    }
                },
                Event::Close => {
                    if stack.len() < 2 {
                        return None;
                    }
                    let tree = match stack.pop() {
                        Some(tree) => tree,
                        None => Tree { kind: TreeKind::ErrorTree, children: Vec::new() },
                    };
                    assert(tree_views(stack@) =~= before.drop_last());
                    put_child(&mut stack, Child::Tree(tree));
                },
                Event::Advance => {
                    if stack.len() < 1 || next >= self.tokens.len() {
                        return None;
                    }
                    put_child(&mut stack, Child::Token(self.tokens[next].clone()));
                    next += 1;
                },
            }
            i += 1;
        }
        proof {
            assert(body.skip(n - 1) =~= Seq::<Event>::empty());
        }
        if stack.len() == 1 {
            stack.pop()
        } else {
            None
        }
    }

    /// The concrete syntax tree of the tokens, read from their beginning.
    /// Every token but the last, which ends the input, stands in the tree,
    /// in its place: the tokens under the tree, from left to right, are the
    /// tokens of the input. What does not fit the grammar stands under
    /// `ErrorTree` nodes, and a diagnostic is put behind the others for it.
    pub fn parse(&mut self) -> (tree: Tree)
        ensures
            final(self).same_input(old(self)),
            tree@ == tree_spec(old(self).source()),
            message_views(final(self).errors@) == message_views(old(self).errors@) + content_spec(
                old(self).source(),
            ).errors,
            final(self).source().eof(final(self).pos as int),
            tree@.leaves() == old(self).source().tokens.subrange(0, final(self).pos as int),
    {
        self.pos = 0;
        self.events.clear();
        let ghost p0 = *self;
        file(self);
        proof {
            let src = p0.source();
            let tree = tree_spec(src);
            lemma_single(ChildView::Tree(tree));
            assert(file_spec(src).children =~= seq![ChildView::Tree(tree)]);
            assert(self.events@ =~= tree_events(tree));
            lemma_build_tree(tree, src.tokens);
        }
        match self.build_tree() {
            Some(tree) => tree,
            None => Tree { kind: TreeKind::File, children: Vec::new() },
        }
    }
}

/// What the parser reads: paths with their tokens.
pub type Input = crate::phase::lexer::Output;

/// What the parser makes of them: paths with their concrete syntax trees.
pub type Output = Vec<(String, Tree)>;

/// What the parser reads from the entry `entry` of its input.
pub open spec fn source_of(entry: (String, Vec<Token>), grammar: Grammar) -> Source {
    Source { tokens: token_views(entry.1@), path: entry.0@, grammar }
}

/// Whether `output` holds the tree of each entry of `input`, in order.
pub open spec fn parsed(
    input: Seq<(String, Vec<Token>)>,
    grammar: Grammar,
    output: Seq<(String, Tree)>,
) -> bool {
    &&& output.len() == input.len()
    &&& forall|i: int|
        0 <= i < input.len() ==> (#[trigger] output[i]).0@ == input[i].0@ && output[i].1@
            == tree_spec(source_of(input[i], grammar))
}

/// The diagnostics of the parser for all entries of its input, entry by entry.
pub open spec fn parser_errors(input: Seq<(String, Vec<Token>)>, grammar: Grammar) -> Seq<
    MessageView,
>
    decreases input.len(),
{
    if input.len() == 0 {
        seq![]
    } else {
        parser_errors(input.drop_last(), grammar) + content_spec(
            source_of(input.last(), grammar),
        ).errors
    }
}

impl Phase<Input, Output> for Parser {
    /// A fresh parser reads expressions and stands before no tokens from
    /// no path: no event and no diagnostic so far.
    open spec fn fresh(&self) -> bool {
        &&& self.grammar == Grammar::Expression
        &&& self.pos == 0
        &&& self.source_path@ == Seq::<char>::empty()
        &&& self.tokens@ == Seq::<Token>::empty()
        &&& self.events@ == Seq::<Event>::empty()
        &&& self.errors@ == Seq::<Message>::empty()
    }

    /// A parser of expressions over no tokens.
    fn new() -> Self {
        let tokens: Vec<Token> = Vec::new();
        let parser = Parser::from(&String::new(), &tokens, Grammar::Expression);
        assert(parser.source_path@ =~= Seq::<char>::empty());
        assert(parser.source().tokens.len() == 0);
        assert(parser.tokens@ =~= Seq::<Token>::empty());
        assert(parser.events@ =~= Seq::<Event>::empty());
        assert(parser.errors@ =~= Seq::<Message>::empty());
        parser
    }

    /// Parses the tokens of every source, by the grammar that the parser
    /// was set to. The output holds the tree of each; what did not fit the
    /// grammar is reported, and the result is a soft error if there is any.
    fn run(&mut self, _config: &Config, input: &Input) -> (r: PhaseResult<Output>)
        ensures
            final(self).grammar == old(self).grammar,
            r.output() is Some,
            parsed(input@, old(self).grammar, r.output()->Some_0@),
            r.errors() == parser_errors(input@, old(self).grammar),
            r is Success <==> parser_errors(input@, old(self).grammar).len() == 0,
            !(r is Failure),
    {
        let grammar = self.grammar;
        let mut out: Output = Vec::new();
        let mut errs: Vec<Message> = Vec::new();
        let mut i: usize = 0;
        assert(input@.take(0) =~= Seq::<(String, Vec<Token>)>::empty());
        assert(message_views(errs@) =~= parser_errors(input@.take(0), grammar));
        while i < input.len()
            invariant
                i <= input.len(),
                self.grammar == grammar,
                parsed(input@.take(i as int), grammar, out@),
                message_views(errs@) == parser_errors(input@.take(i as int), grammar),
            decreases input.len() - i,
        {
            *self = Parser::from(&input[i].0, &input[i].1, grammar);
            let cst = self.parse();
            proof {
                assert(input@.take(i + 1).drop_last() =~= input@.take(i as int));
                assert(input@.take(i + 1).last() == input@[i as int]);
                assert(message_views(self.errors@) =~= content_spec(
                    source_of(input@[i as int], grammar),
                ).errors);
            }
            append_messages(&mut errs, &self.errors);
            let ghost before = out@;
            out.push((input[i].0.clone(), cst));
            proof {
                assert forall|j: int| 0 <= j < i + 1 implies (#[trigger] out@[j]).0@ == input@.take(
                    i + 1,
                )[j].0@ && out@[j].1@ == tree_spec(source_of(input@.take(i + 1)[j], grammar)) by {
                    if j < i {
                        assert(out@[j] == before[j]);
                        assert(input@.take(i + 1)[j] == input@.take(i as int)[j]);
                    }
                }
            }
            i += 1;
        }
        proof {
            assert(input@.take(input.len() as int) =~= input@);
        }
        if errs.len() > 0 {
            PhaseResult::SoftErr(out, errs)
        } else {
            PhaseResult::Success(out)
        }
    }
}

} // verus!
