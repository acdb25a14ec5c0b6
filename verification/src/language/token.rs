//! Tokens and their places in a source.

use vstd::prelude::*;
use vstd::string::*;
use crate::message::{Content, ContentView, Message, MessageView, Severity};
use crate::phase::lexer::LexerError;
use crate::text::{decimal, decimal_string, push_char};

verus! {

/// A span inside one line of a source.
#[derive(PartialEq, Eq, Structural, PartialOrd, Ord, Copy, Clone, Debug)]
pub struct Position {
    /// The line that the span lies in, counted from zero.
    pub line: usize,
    /// The column at which the span begins.
    pub column: usize,
    /// Offset into the source of the first character of the span.
    pub begin: usize,
    /// Offset into the source just behind the span.
    pub end: usize,
}

/// What a token is.
#[derive(PartialEq, Debug)]
pub enum TokenKind {
    // Values
    LiteralInt(u64),
    LiteralBool(bool),
    Name(String),
    // Keywords
    KeywordIf,
    KeywordThen,
    KeywordElse,
    KeywordLet,
    KeywordIn,
    KeywordDef,
    // Operators
    Plus,
    Minus,
    // Punctuation
    ParenL,
    ParenR,
    CurlyL,
    CurlyR,
    Backslash,
    Colon,
    Arrow,
    Equal,
    Comma,
    Semi,
    // Synthetic
    Eof,
    Error(LexerError),
}

/// Mathematical model of [`TokenKind`].
pub enum TokenKindView {
    LiteralInt(u64),
    LiteralBool(bool),
    Name(Seq<char>),
    KeywordIf,
    KeywordThen,
    KeywordElse,
    KeywordLet,
    KeywordIn,
    KeywordDef,
    Plus,
    Minus,
    ParenL,
    ParenR,
    CurlyL,
    CurlyR,
    Backslash,
    Colon,
    Arrow,
    Equal,
    Comma,
    Semi,
    Eof,
    Error(LexerError),
}

impl View for TokenKind {
    type V = TokenKindView;

    open spec fn view(&self) -> TokenKindView {
        match self {
            TokenKind::LiteralInt(n) => TokenKindView::LiteralInt(*n),
            TokenKind::LiteralBool(b) => TokenKindView::LiteralBool(*b),
            TokenKind::Name(s) => TokenKindView::Name(s@),
            TokenKind::KeywordIf => TokenKindView::KeywordIf,
            TokenKind::KeywordThen => TokenKindView::KeywordThen,
            TokenKind::KeywordElse => TokenKindView::KeywordElse,
            TokenKind::KeywordLet => TokenKindView::KeywordLet,
            TokenKind::KeywordIn => TokenKindView::KeywordIn,
            TokenKind::KeywordDef => TokenKindView::KeywordDef,
            TokenKind::Plus => TokenKindView::Plus,
            TokenKind::Minus => TokenKindView::Minus,
            TokenKind::ParenL => TokenKindView::ParenL,
            TokenKind::ParenR => TokenKindView::ParenR,
            TokenKind::CurlyL => TokenKindView::CurlyL,
            TokenKind::CurlyR => TokenKindView::CurlyR,
            TokenKind::Backslash => TokenKindView::Backslash,
            TokenKind::Colon => TokenKindView::Colon,
            TokenKind::Arrow => TokenKindView::Arrow,
            TokenKind::Equal => TokenKindView::Equal,
            TokenKind::Comma => TokenKindView::Comma,
            TokenKind::Semi => TokenKindView::Semi,
            TokenKind::Eof => TokenKindView::Eof,
            TokenKind::Error(e) => TokenKindView::Error(*e),
        }
    }
}

impl TokenKindView {
    /// The variant of a kind, whatever it carries: literals of one sort are
    /// alike, and so are all names and all errors.
    pub open spec fn tag(self) -> nat {
        match self {
            TokenKindView::LiteralInt(_) => 0,
            TokenKindView::LiteralBool(_) => 1,
            TokenKindView::Name(_) => 2,
            TokenKindView::KeywordIf => 3,
            TokenKindView::KeywordThen => 4,
            TokenKindView::KeywordElse => 5,
            TokenKindView::KeywordLet => 6,
            TokenKindView::KeywordIn => 7,
            TokenKindView::KeywordDef => 8,
            TokenKindView::Plus => 9,
            TokenKindView::Minus => 10,
            TokenKindView::ParenL => 11,
            TokenKindView::ParenR => 12,
            TokenKindView::CurlyL => 13,
            TokenKindView::CurlyR => 14,
            TokenKindView::Backslash => 15,
            TokenKindView::Colon => 16,
            TokenKindView::Arrow => 17,
            TokenKindView::Equal => 18,
            TokenKindView::Comma => 19,
            TokenKindView::Semi => 20,
            TokenKindView::Eof => 21,
            TokenKindView::Error(_) => 22,
        }
    }

    /// How a kind is written in diagnostics and tree dumps.
    pub open spec fn text(self) -> Seq<char> {
        match self {
            TokenKindView::LiteralInt(n) => decimal(n as nat),
            TokenKindView::LiteralBool(b) => if b {
                "true"@
            } else {
                "false"@
            },
            TokenKindView::Name(s) => s,
            TokenKindView::KeywordIf => "if"@,
            TokenKindView::KeywordThen => "then"@,
            TokenKindView::KeywordElse => "else"@,
            TokenKindView::KeywordLet => "let"@,
            TokenKindView::KeywordIn => "in"@,
            TokenKindView::KeywordDef => "def"@,
            TokenKindView::Plus => "+"@,
            TokenKindView::Minus => "-"@,
            TokenKindView::ParenL => "("@,
            TokenKindView::ParenR => ")"@,
            TokenKindView::CurlyL => "{"@,
            TokenKindView::CurlyR => "}"@,
            TokenKindView::Backslash => "\\"@,
            TokenKindView::Colon => ":"@,
            TokenKindView::Arrow => "->"@,
            TokenKindView::Equal => "="@,
            TokenKindView::Comma => ","@,
            TokenKindView::Semi => ";"@,
            TokenKindView::Eof => "<eof>"@,
            TokenKindView::Error(_) => "<error>"@,
        }
    }
}

impl TokenKind {
    /// Number of the variant, for comparing kinds without their payload.
    pub fn tag(&self) -> (t: u8)
        ensures
            t as nat == self@.tag(),
    {
        match self {
            TokenKind::LiteralInt(_) => 0,
            TokenKind::LiteralBool(_) => 1,
            TokenKind::Name(_) => 2,
            TokenKind::KeywordIf => 3,
            TokenKind::KeywordThen => 4,
            TokenKind::KeywordElse => 5,
            TokenKind::KeywordLet => 6,
            TokenKind::KeywordIn => 7,
            TokenKind::KeywordDef => 8,
            TokenKind::Plus => 9,
            TokenKind::Minus => 10,
            TokenKind::ParenL => 11,
            TokenKind::ParenR => 12,
            TokenKind::CurlyL => 13,
            TokenKind::CurlyR => 14,
            TokenKind::Backslash => 15,
            TokenKind::Colon => 16,
            TokenKind::Arrow => 17,
            TokenKind::Equal => 18,
            TokenKind::Comma => 19,
            TokenKind::Semi => 20,
            TokenKind::Eof => 21,
            TokenKind::Error(_) => 22,
        }
    }

    /// The kind as text.
    pub fn text(&self) -> (s: String)
        ensures
            s@ == self@.text(),
    {
        match self {
            TokenKind::LiteralInt(n) => decimal_string(*n as u128),
            TokenKind::LiteralBool(b) => if *b {
                String::from_str("true")
            } else {
                String::from_str("false")
            },
            TokenKind::Name(s) => s.clone(),
            TokenKind::KeywordIf => String::from_str("if"),
            TokenKind::KeywordThen => String::from_str("then"),
            TokenKind::KeywordElse => String::from_str("else"),
            TokenKind::KeywordLet => String::from_str("let"),
            TokenKind::KeywordIn => String::from_str("in"),
            TokenKind::KeywordDef => String::from_str("def"),
            TokenKind::Plus => String::from_str("+"),
            TokenKind::Minus => String::from_str("-"),
            TokenKind::ParenL => String::from_str("("),
            TokenKind::ParenR => String::from_str(")"),
            TokenKind::CurlyL => String::from_str("{"),
            TokenKind::CurlyR => String::from_str("}"),
            TokenKind::Backslash => String::from_str("\\"),
            TokenKind::Colon => String::from_str(":"),
            TokenKind::Arrow => String::from_str("->"),
            TokenKind::Equal => String::from_str("="),
            TokenKind::Comma => String::from_str(","),
            TokenKind::Semi => String::from_str(";"),
            TokenKind::Eof => String::from_str("<eof>"),
            TokenKind::Error(_) => String::from_str("<error>"),
        }
    }
}

impl Clone for TokenKind {
    fn clone(&self) -> (r: Self)
        ensures
            r@ == self@,
    {
        match self {
            TokenKind::LiteralInt(n) => TokenKind::LiteralInt(*n),
            TokenKind::LiteralBool(b) => TokenKind::LiteralBool(*b),
            TokenKind::Name(s) => TokenKind::Name(s.clone()),
            TokenKind::KeywordIf => TokenKind::KeywordIf,
            TokenKind::KeywordThen => TokenKind::KeywordThen,
            TokenKind::KeywordElse => TokenKind::KeywordElse,
            TokenKind::KeywordLet => TokenKind::KeywordLet,
            TokenKind::KeywordIn => TokenKind::KeywordIn,
            TokenKind::KeywordDef => TokenKind::KeywordDef,
            TokenKind::Plus => TokenKind::Plus,
            TokenKind::Minus => TokenKind::Minus,
            TokenKind::ParenL => TokenKind::ParenL,
            TokenKind::ParenR => TokenKind::ParenR,
            TokenKind::CurlyL => TokenKind::CurlyL,
            TokenKind::CurlyR => TokenKind::CurlyR,
            TokenKind::Backslash => TokenKind::Backslash,
            TokenKind::Colon => TokenKind::Colon,
            TokenKind::Arrow => TokenKind::Arrow,
            TokenKind::Equal => TokenKind::Equal,
            TokenKind::Comma => TokenKind::Comma,
            TokenKind::Semi => TokenKind::Semi,
            TokenKind::Eof => TokenKind::Eof,
            TokenKind::Error(e) => TokenKind::Error(*e),
        }
    }
}

/// A token: its kind, and where it stands.
#[derive(PartialEq, Debug)]
pub struct Token {
    /// Path of the source that the token was read from.
    pub source_path: String,
    pub kind: TokenKind,
    pub position: Position,
}

/// Mathematical model of [`Token`].
pub struct TokenView {
    pub source_path: Seq<char>,
    pub kind: TokenKindView,
    pub position: Position,
}

impl View for Token {
    type V = TokenView;

    open spec fn view(&self) -> TokenView {
        TokenView { source_path: self.source_path@, kind: self.kind@, position: self.position }
    }
}

impl Clone for Token {
    fn clone(&self) -> (r: Self)
        ensures
            r@ == self@,
    {
        Token {
            source_path: self.source_path.clone(),
            kind: self.kind.clone(),
            position: self.position,
        }
    }
}

/// The models of a list of tokens, in order.
pub open spec fn token_views(ts: Seq<Token>) -> Seq<TokenView> {
    ts.map_values(|t: Token| t@)
}

/// A copy of a list of tokens.
pub fn clone_tokens(ts: &Vec<Token>) -> (r: Vec<Token>)
    ensures
        token_views(r@) == token_views(ts@),
{
    let mut r: Vec<Token> = Vec::new();
    let mut i: usize = 0;
    while i < ts.len()
        invariant
            i <= ts.len(),
            r.len() == i,
            forall|j: int| 0 <= j < i ==> r@[j]@ == ts@[j]@,
        decreases ts.len() - i,
    {
        r.push(ts[i].clone());
        i += 1;
    }
    assert(token_views(r@) =~= token_views(ts@));
    r
}

impl TokenView {
    /// How the token is written in diagnostics and tree dumps.
    pub open spec fn text(self) -> Seq<char> {
        self.kind.text()
    }

    /// The diagnostic that an error token stands for.
    pub open spec fn diagnostic(self) -> Option<MessageView> {
        match self.kind {
            TokenKindView::Error(LexerError::UnexpectedToken(c)) => Some(
                MessageView {
                    severity: Severity::Error,
                    position: self.position,
                    content: ContentView {
                        message: "Unexpected character '"@.push(c) + "'"@,
                        indicator_message: Some("found here"@),
                        fix_hint: None,
                    },
                    source_path: self.source_path,
                },
            ),
            TokenKindView::Error(LexerError::NumberTooLarge) => Some(
                MessageView {
                    severity: Severity::Error,
                    position: self.position,
                    content: ContentView {
                        message: "this number is too large"@,
                        indicator_message: Some("found here"@),
                        fix_hint: None,
                    },
                    source_path: self.source_path,
                },
            ),
            _ => None,
        }
    }
}

impl Token {
    /// The token as text.
    pub fn text(&self) -> (s: String)
        ensures
            s@ == self@.text(),
    {
        self.kind.text()
    }
}

impl Message {
    /// The diagnostic of an error token; `Err` for every other token.
    pub fn try_from(token: &Token) -> (r: Result<Message, ()>)
        ensures
            match token@.diagnostic() {
                Some(m) => r is Ok && r->Ok_0@ == m,
                None => r is Err,
            },
    {
        match token.kind {
            TokenKind::Error(err) => {
                let message = match err {
                    LexerError::UnexpectedToken(c) => {
                        let mut s = String::from_str("Unexpected character '");
                        push_char(&mut s, c);
                        s.append("'");
                        s
                    },
                    LexerError::NumberTooLarge => String::from_str("this number is too large"),
                };
                Ok(
                    Message {
                        source_path: token.source_path.clone(),
                        position: token.position,
                        severity: Severity::Error,
                        content: Content {
                            message,
                            indicator_message: Some(String::from_str("found here")),
                            fix_hint: None,
                        },
                    },
                )
            },
            _ => Err(()),
        }
    }
}

} // verus!
