//! The lexer: characters of a source to tokens with their places.

use vstd::prelude::*;
use vstd::string::*;
use crate::config::Config;
use crate::language::token::{token_views, Position, Token, TokenKind, TokenKindView, TokenView};
use crate::message::{line_end, lemma_lines, message_views, push_message, Message, MessageView};
use crate::phase::phase::{Phase, PhaseResult};
use crate::text::{
    chars_of, digit_of, digits_value, is_alphabetic, is_digit, is_digit_char, is_whitespace,
    string_of, unicode_alphabetic, unicode_whitespace,
};

verus! {

/// Why a stretch of the source is no token.
#[derive(PartialEq, Eq, Structural, PartialOrd, Ord, Copy, Clone, Debug)]
pub enum LexerError {
    /// A character that starts no token.
    UnexpectedToken(char),
    /// A run of digits that writes a number above `u64::MAX`.
    NumberTooLarge,
}

/// Number of line feeds among the first `n` characters.
pub open spec fn line_of(chars: Seq<char>, n: int) -> int
    decreases n,
{
    if n <= 0 || n > chars.len() {
        0
    } else if chars[n - 1] == '\n' {
        line_of(chars, n - 1) + 1
    } else {
        line_of(chars, n - 1)
    }
}

/// Number of characters between the last line feed before `n` and `n`.
pub open spec fn column_of(chars: Seq<char>, n: int) -> int
    decreases n,
{
    if n <= 0 || n > chars.len() {
        0
    } else if chars[n - 1] == '\n' {
        0
    } else {
        column_of(chars, n - 1) + 1
    }
}

/// Lines and columns are bounded by the offset.
pub proof fn lemma_line_column(chars: Seq<char>, n: int)
    requires
        0 <= n <= chars.len(),
    ensures
        0 <= line_of(chars, n),
        0 <= column_of(chars, n),
        line_of(chars, n) + column_of(chars, n) <= n,
    decreases n,
{
    if n > 0 {
        lemma_line_column(chars, n - 1);
    }
}

/// Index behind the run of whitespace that begins at `from`.
pub open spec fn whitespace_end(chars: Seq<char>, from: int) -> int
    decreases chars.len() - from,
{
    if 0 <= from < chars.len() && unicode_whitespace(chars[from]) {
        whitespace_end(chars, from + 1)
    } else {
        from
    }
}

/// Index behind the comment that begins at `from`: behind the line feed
/// that ends it, or the end of the source.
pub open spec fn comment_end(chars: Seq<char>, from: int) -> int {
    if line_end(chars, from) < chars.len() {
        line_end(chars, from) + 1
    } else {
        chars.len() as int
    }
}

/// Index behind the run of comments that begins at `from`, each on a line
/// of its own.
pub open spec fn comments_end(chars: Seq<char>, from: int) -> int
    decreases chars.len() - from,
{
    if 0 <= from < chars.len() && chars[from] == '#' && from < comment_end(chars, from) {
        comments_end(chars, comment_end(chars, from))
    } else {
        from
    }
}

/// Index of the first character at or behind `from` that belongs to a
/// token: whitespace and comments are passed over, in turn, as long as
/// there are any.
pub open spec fn trivia_end(chars: Seq<char>, from: int) -> int
    decreases chars.len() - from,
{
    let next = comments_end(chars, whitespace_end(chars, from));
    if from < next <= chars.len() {
        trivia_end(chars, next)
    } else {
        from
    }
}

/// Whether `chars[from..to]` is made of whitespace and whole comments.
pub open spec fn is_trivia(chars: Seq<char>, from: int, to: int) -> bool
    decreases to - from,
{
    if from >= to {
        from == to
    } else if !(0 <= from < chars.len()) {
        false
    } else {
        ||| unicode_whitespace(chars[from]) && is_trivia(chars, from + 1, to)
        ||| chars[from] == '#' && from < comment_end(chars, from) <= to && is_trivia(
            chars,
            comment_end(chars, from),
            to,
        )
    }
}

/// Whether the word stands in `chars` at the index `at`.
pub open spec fn matches_at(chars: Seq<char>, at: int, word: Seq<char>) -> bool {
    0 <= at && at + word.len() <= chars.len() && chars.subrange(at, at + word.len()) == word
}

/// Index behind the run of digits that begins at `from`.
pub open spec fn digits_end(chars: Seq<char>, from: int) -> int
    decreases chars.len() - from,
{
    if 0 <= from < chars.len() && is_digit_char(chars[from]) {
        digits_end(chars, from + 1)
    } else {
        from
    }
}

/// A character that may stand in a name behind its first.
pub open spec fn is_name_char(c: char) -> bool {
    unicode_alphabetic(c) || c == '_'
}

/// Index behind the run of name characters that begins at `from`.
pub open spec fn name_end(chars: Seq<char>, from: int) -> int
    decreases chars.len() - from,
{
    if 0 <= from < chars.len() && is_name_char(chars[from]) {
        name_end(chars, from + 1)
    } else {
        from
    }
}

/// The keyword that stands at `at`, with its length. The keywords are tried
/// in a fixed order, and a keyword counts wherever its letters stand,
/// whatever follows them.
pub open spec fn keyword_at(chars: Seq<char>, at: int) -> Option<(TokenKindView, int)> {
    if matches_at(chars, at, "if"@) {
        Some((TokenKindView::KeywordIf, "if"@.len() as int))
    } else if matches_at(chars, at, "then"@) {
        Some((TokenKindView::KeywordThen, "then"@.len() as int))
    } else if matches_at(chars, at, "else"@) {
        Some((TokenKindView::KeywordElse, "else"@.len() as int))
    } else if matches_at(chars, at, "let"@) {
        Some((TokenKindView::KeywordLet, "let"@.len() as int))
    } else if matches_at(chars, at, "in"@) {
        Some((TokenKindView::KeywordIn, "in"@.len() as int))
    } else if matches_at(chars, at, "def"@) {
        Some((TokenKindView::KeywordDef, "def"@.len() as int))
    } else if matches_at(chars, at, "true"@) {
        Some((TokenKindView::LiteralBool(true), "true"@.len() as int))
    } else if matches_at(chars, at, "false"@) {
        Some((TokenKindView::LiteralBool(false), "false"@.len() as int))
    } else {
        None
    }
}

/// The punctuation or operator of one character.
pub open spec fn punctuation(c: char) -> Option<TokenKindView> {
    if c == '+' {
        Some(TokenKindView::Plus)
    } else if c == '-' {
        Some(TokenKindView::Minus)
    } else if c == ':' {
        Some(TokenKindView::Colon)
    } else if c == ';' {
        Some(TokenKindView::Semi)
    } else if c == ',' {
        Some(TokenKindView::Comma)
    } else if c == '=' {
        Some(TokenKindView::Equal)
    } else if c == '(' {
        Some(TokenKindView::ParenL)
    } else if c == ')' {
        Some(TokenKindView::ParenR)
    } else if c == '{' {
        Some(TokenKindView::CurlyL)
    } else if c == '}' {
        Some(TokenKindView::CurlyR)
    } else if c == '\\' {
        Some(TokenKindView::Backslash)
    } else {
        None
    }
}

/// The token that begins at `at`: its kind, and the index behind it. The
/// first rule that fits decides: the arrow, then punctuation and operators,
/// then the keywords (for a first character that is alphabetic), then a
/// number, then a name; any other character is an error token of its own.
pub open spec fn scan(chars: Seq<char>, at: int) -> (TokenKindView, int)
    recommends
        0 <= at < chars.len(),
{
    let c = chars[at];
    if matches_at(chars, at, "->"@) {
        (TokenKindView::Arrow, at + "->"@.len())
    } else if punctuation(c) is Some {
        (punctuation(c)->Some_0, at + 1)
    } else if unicode_alphabetic(c) && keyword_at(chars, at) is Some {
        (keyword_at(chars, at)->Some_0.0, at + keyword_at(chars, at)->Some_0.1)
    } else if is_digit_char(c) {
        let end = digits_end(chars, at + 1);
        let value = digits_value(chars.subrange(at, end));
        if value <= u64::MAX {
            (TokenKindView::LiteralInt(value as u64), end)
        } else {
            (TokenKindView::Error(LexerError::NumberTooLarge), end)
        }
    } else if unicode_alphabetic(c) {
        let end = name_end(chars, at + 1);
        (TokenKindView::Name(chars.subrange(at, end)), end)
    } else {
        (TokenKindView::Error(LexerError::UnexpectedToken(c)), at + 1)
    }
}

/// The place of the span `begin..end`: the column is that of its first
/// character, the line that of its end.
pub open spec fn position_of(chars: Seq<char>, begin: int, end: int) -> Position {
    Position {
        line: line_of(chars, end) as usize,
        column: column_of(chars, begin) as usize,
        begin: begin as usize,
        end: end as usize,
    }
}

/// The token that begins at `at`.
pub open spec fn token_at(chars: Seq<char>, path: Seq<char>, at: int) -> TokenView {
    TokenView {
        source_path: path,
        kind: scan(chars, at).0,
        position: position_of(chars, at, scan(chars, at).1),
    }
}

/// The token that ends every token list: it stands at `at` and is empty.
pub open spec fn eof_token(chars: Seq<char>, path: Seq<char>, at: int) -> TokenView {
    TokenView { source_path: path, kind: TokenKindView::Eof, position: position_of(chars, at, at) }
}

/// The tokens of `chars` from the index `from` on, with the `Eof` token at
/// their end.
pub open spec fn tokens_from(chars: Seq<char>, path: Seq<char>, from: int) -> Seq<TokenView>
    decreases chars.len() - from,
{
    let at = trivia_end(chars, from);
    if 0 <= at < chars.len() {
        let end = scan(chars, at).1;
        if from < end <= chars.len() {
            seq![token_at(chars, path, at)] + tokens_from(chars, path, end)
        } else {
            seq![token_at(chars, path, at), eof_token(chars, path, at)]
        }
    } else {
        seq![eof_token(chars, path, at)]
    }
}

/// The tokens of a source.
pub open spec fn lex_spec(chars: Seq<char>, path: Seq<char>) -> Seq<TokenView> {
    tokens_from(chars, path, 0)
}

/// A run of whitespace ends inside the source, and is trivia.
pub proof fn lemma_whitespace_end(chars: Seq<char>, from: int)
    requires
        0 <= from <= chars.len(),
    ensures
        from <= whitespace_end(chars, from) <= chars.len(),
        is_trivia(chars, from, whitespace_end(chars, from)),
        whitespace_end(chars, from) < chars.len() ==> !unicode_whitespace(
            chars[whitespace_end(chars, from)],
        ),
    decreases chars.len() - from,
{
    if from < chars.len() && unicode_whitespace(chars[from]) {
        lemma_whitespace_end(chars, from + 1);
    }
}

/// A comment ends behind its beginning, inside the source.
pub proof fn lemma_comment_end(chars: Seq<char>, from: int)
    requires
        0 <= from < chars.len(),
    ensures
        from < comment_end(chars, from) <= chars.len(),
{
    lemma_lines(chars, from, 0);
}

/// Trivia behind trivia is trivia.
pub proof fn lemma_trivia_concat(chars: Seq<char>, a: int, b: int, c: int)
    requires
        0 <= a <= b <= c <= chars.len(),
        is_trivia(chars, a, b),
        is_trivia(chars, b, c),
    ensures
        is_trivia(chars, a, c),
    decreases b - a,
{
    if a < b {
        if unicode_whitespace(chars[a]) && is_trivia(chars, a + 1, b) {
            lemma_trivia_concat(chars, a + 1, b, c);
        } else {
            lemma_comment_end(chars, a);
            lemma_trivia_concat(chars, comment_end(chars, a), b, c);
        }
    }
}

/// A run of comments ends inside the source, and is trivia.
pub proof fn lemma_comments_end(chars: Seq<char>, from: int)
    requires
        0 <= from <= chars.len(),
    ensures
        from <= comments_end(chars, from) <= chars.len(),
        is_trivia(chars, from, comments_end(chars, from)),
        comments_end(chars, from) < chars.len() ==> chars[comments_end(chars, from)] != '#',
    decreases chars.len() - from,
{
    if from < chars.len() && chars[from] == '#' {
        lemma_comment_end(chars, from);
        lemma_comments_end(chars, comment_end(chars, from));
    }
}

/// Where trivia ends: inside the source, before a character that is
/// neither whitespace nor the beginning of a comment.
pub proof fn lemma_trivia_end(chars: Seq<char>, from: int)
    requires
        0 <= from <= chars.len(),
    ensures
        from <= trivia_end(chars, from) <= chars.len(),
        is_trivia(chars, from, trivia_end(chars, from)),
        trivia_end(chars, from) < chars.len() ==> !unicode_whitespace(
            chars[trivia_end(chars, from)],
        ) && chars[trivia_end(chars, from)] != '#',
    decreases chars.len() - from,
{
    let middle = whitespace_end(chars, from);
    lemma_whitespace_end(chars, from);
    let next = comments_end(chars, middle);
    lemma_comments_end(chars, middle);
    lemma_trivia_concat(chars, from, middle, next);
    if from < next {
        lemma_trivia_end(chars, next);
        lemma_trivia_concat(chars, from, next, trivia_end(chars, next));
    }
}

/// A run of digits ends inside the source and holds digits only.
pub proof fn lemma_digits_end(chars: Seq<char>, from: int)
    requires
        0 <= from <= chars.len(),
    ensures
        from <= digits_end(chars, from) <= chars.len(),
        forall|i: int| from <= i < digits_end(chars, from) ==> is_digit_char(chars[i]),
    decreases chars.len() - from,
{
    if from < chars.len() && is_digit_char(chars[from]) {
        lemma_digits_end(chars, from + 1);
    }
}

/// A run of name characters ends inside the source.
pub proof fn lemma_name_end(chars: Seq<char>, from: int)
    requires
        0 <= from <= chars.len(),
    ensures
        from <= name_end(chars, from) <= chars.len(),
    decreases chars.len() - from,
{
    if from < chars.len() && is_name_char(chars[from]) {
        lemma_name_end(chars, from + 1);
    }
}

/// The lengths of the keywords and of the arrow.
pub proof fn lemma_word_lengths()
    ensures
        "->"@.len() == 2,
        "if"@.len() == 2,
        "then"@.len() == 4,
        "else"@.len() == 4,
        "let"@.len() == 3,
        "in"@.len() == 2,
        "def"@.len() == 3,
        "true"@.len() == 4,
        "false"@.len() == 5,
{
    reveal_strlit("->");
    reveal_strlit("if");
    reveal_strlit("then");
    reveal_strlit("else");
    reveal_strlit("let");
    reveal_strlit("in");
    reveal_strlit("def");
    reveal_strlit("true");
    reveal_strlit("false");
}

/// Every token has at least one character and ends inside the source.
pub proof fn lemma_scan(chars: Seq<char>, at: int)
    requires
        0 <= at < chars.len(),
    ensures
        at < scan(chars, at).1 <= chars.len(),
{
    lemma_word_lengths();
    lemma_digits_end(chars, at + 1);
    lemma_name_end(chars, at + 1);
}

/// The characters that a token was read from.
pub open spec fn lexeme_at(chars: Seq<char>, at: int) -> Seq<char> {
    chars.subrange(at, scan(chars, at).1)
}

/// What a token holds of its characters: a number holds their value, and
/// every other token but an error token is written as its characters.
pub proof fn lemma_token_holds_lexeme(chars: Seq<char>, at: int)
    requires
        0 <= at < chars.len(),
    ensures
        match scan(chars, at).0 {
            TokenKindView::LiteralInt(n) => n == digits_value(lexeme_at(chars, at)),
            TokenKindView::Error(_) => true,
            kind => kind.text() == lexeme_at(chars, at),
        },
{
    lemma_scan(chars, at);
    lemma_word_lengths();
    reveal_strlit("+");
    reveal_strlit("-");
    reveal_strlit(":");
    reveal_strlit(";");
    reveal_strlit(",");
    reveal_strlit("=");
    reveal_strlit("(");
    reveal_strlit(")");
    reveal_strlit("{");
    reveal_strlit("}");
    reveal_strlit("\\");
    let kind = scan(chars, at).0;
    let lexeme = lexeme_at(chars, at);
    if !matches_at(chars, at, "->"@) && punctuation(chars[at]) is Some {
        assert(lexeme =~= seq![chars[at]]);
        assert(kind.text().len() == 1);
        assert(kind.text() =~= seq![chars[at]]);
    }
}

/// Whether the tokens tile `chars[from..]`: each token begins behind the
/// one before it, has at least one character, lies inside the source, and is
/// parted from its neighbour by nothing but whitespace and comments; the
/// `Eof` token comes last and stands at the end of the source.
pub open spec fn tiles(chars: Seq<char>, tokens: Seq<TokenView>, from: int) -> bool
    decreases tokens.len(),
{
    tokens.len() >= 1 && {
        let t = tokens[0];
        &&& from <= t.position.begin <= t.position.end <= chars.len()
        &&& is_trivia(chars, from, t.position.begin as int)
        &&& if t.kind is Eof {
            tokens.len() == 1 && t.position.begin == chars.len()
        } else {
            t.position.begin < t.position.end && tiles(
                chars,
                tokens.drop_first(),
                t.position.end as int,
            )
        }
    }
}

/// The source put together again from the tokens: what stands before each
/// token, then the characters of the token itself.
pub open spec fn woven(chars: Seq<char>, tokens: Seq<TokenView>, from: int) -> Seq<char>
    decreases tokens.len(),
{
    if tokens.len() == 0 {
        Seq::empty()
    } else {
        let t = tokens[0];
        chars.subrange(from, t.position.begin as int) + chars.subrange(
            t.position.begin as int,
            t.position.end as int,
        ) + woven(chars, tokens.drop_first(), t.position.end as int)
    }
}

/// Token round trip: the tokens of a source, taken with what parts them,
/// give the source back, and what parts them is whitespace and comments
/// only. So the characters of the tokens, in order, are the source without
/// its whitespace and comments.
pub proof fn lemma_tokens_tile_source(chars: Seq<char>, path: Seq<char>, from: int)
    requires
        0 <= from <= chars.len() <= usize::MAX,
    ensures
        tiles(chars, tokens_from(chars, path, from), from),
        woven(chars, tokens_from(chars, path, from), from) == chars.subrange(
            from,
            chars.len() as int,
        ),
    decreases chars.len() - from,
{
    let at = trivia_end(chars, from);
    lemma_trivia_end(chars, from);
    let tokens = tokens_from(chars, path, from);
    if at < chars.len() {
        lemma_scan(chars, at);
        let end = scan(chars, at).1;
        lemma_tokens_tile_source(chars, path, end);
        let rest = tokens_from(chars, path, end);
        assert(tokens.drop_first() == rest);
        assert(tokens[0] == token_at(chars, path, at));
        assert(tokens[0].position.begin == at);
        assert(tokens[0].position.end == end);
        assert(woven(chars, rest, end) == chars.subrange(end, chars.len() as int));
        assert(woven(chars, tokens, from) == chars.subrange(from, at) + chars.subrange(at, end)
            + woven(chars, rest, end));
        assert(woven(chars, tokens, from) =~= chars.subrange(from, chars.len() as int));
    } else {
        assert(tokens.drop_first() =~= Seq::<TokenView>::empty());
        assert(tokens[0].position.begin == at);
        assert(tokens[0].position.end == at);
        assert(woven(chars, tokens.drop_first(), at) =~= Seq::<char>::empty());
        assert(woven(chars, tokens, from) =~= chars.subrange(from, chars.len() as int));
    }
}

/// The state of the lexer over one source.
pub struct Lexer {
    /// Whether no error token was made so far.
    pub is_ok: bool,
    /// Offset at which the current token begins.
    pub begin: usize,
    /// Offset of the next character.
    pub end: usize,
    /// Number of line feeds before `end`.
    pub line: usize,
    /// Column of the next character.
    pub column: usize,
    /// Column at which the current token begins.
    pub start_column: usize,
    pub source_path: String,
    pub characters: Vec<char>,
    pub errors: Vec<Message>,
}

impl Lexer {
    /// The counters agree with the offsets.
    pub open spec fn wf(&self) -> bool {
        &&& self.begin <= self.end <= self.characters.len()
        &&& self.line == line_of(self.characters@, self.end as int)
        &&& self.column == column_of(self.characters@, self.end as int)
        &&& self.start_column == column_of(self.characters@, self.begin as int)
    }

    /// `self` is `before` moved on: the same source, the current token
    /// beginning at `begin` and the next character standing at `end`.
    pub open spec fn moved(&self, before: &Lexer, begin: int, end: int) -> bool {
        &&& self.wf()
        &&& self.characters == before.characters
        &&& self.source_path == before.source_path
        &&& self.errors == before.errors
        &&& self.is_ok == before.is_ok
        &&& self.begin == begin
        &&& self.end == end
    }

    /// A lexer at the beginning of the source `source.1`, read from the path `source.0`.
    pub fn new(source: (&String, &String)) -> (lexer: Self)
        ensures
            lexer.wf(),
            lexer.is_ok,
            lexer.begin == 0,
            lexer.end == 0,
            lexer.source_path@ == source.0@,
            lexer.characters@ == source.1@,
            lexer.errors@.len() == 0,
    {
        Self {
            is_ok: true,
            begin: 0,
            end: 0,
            line: 0,
            column: 0,
            start_column: 0,
            source_path: source.0.clone(),
            characters: chars_of(source.1.as_str()),
            errors: Vec::new(),
        }
    }

    /// Whether every character has been read.
    pub fn eof(&self) -> (b: bool)
        ensures
            b == (self.end >= self.characters.len()),
    {
        self.end >= self.characters.len()
    }

    /// Reads one character, and counts lines and columns.
    pub fn advance(&mut self) -> (r: Option<char>)
        requires
            old(self).wf(),
        ensures
            old(self).end < old(self).characters.len() ==> r == Some(
                old(self).characters@[old(self).end as int],
            ) && final(self).moved(old(self), old(self).begin as int, old(self).end + 1),
            old(self).end >= old(self).characters.len() ==> r is None && *final(self) == *old(self),
    {
        if self.eof() {
            return None;
        }
        proof {
            lemma_line_column(self.characters@, self.end as int);
        }
        let c = self.characters[self.end];
        self.end += 1;
        self.column += 1;
        if c == '\n' {
            self.line += 1;
            self.column = 0;
        }
        Some(c)
    }

    /// The character `lookahead` places ahead, or the last one where the
    /// source ends before that.
    pub fn nth(&self, lookahead: usize) -> (c: char)
        requires
            self.characters.len() > 0,
            self.end <= self.characters.len(),
        ensures
            c == self.characters@[if self.end + lookahead < self.characters.len() {
                self.end + lookahead
            } else {
                self.characters.len() - 1
            }],
    {
        let last = self.characters.len() - 1;
        let index = if lookahead < self.characters.len() - self.end {
            self.end + lookahead
        } else {
            last
        };
        self.characters[index]
    }

    /// Passes over a run of whitespace.
    pub fn whitespace(&mut self)
        requires
            old(self).wf(),
        ensures
            final(self).moved(
                old(self),
                old(self).begin as int,
                whitespace_end(old(self).characters@, old(self).end as int),
            ),
    {
        while !self.eof() && is_whitespace(self.nth(0))
            invariant
                self.moved(old(self), old(self).begin as int, self.end as int),
                whitespace_end(old(self).characters@, old(self).end as int) == whitespace_end(
                    self.characters@,
                    self.end as int,
                ),
            decreases self.characters.len() - self.end,
        {
            self.advance();
        }
    }

    /// Whether `keyword` stands where the character read last stands. If it
    /// does, the rest of it is read.
    pub fn keyword(&mut self, keyword: &str) -> (matches: bool)
        requires
            old(self).wf(),
            old(self).begin < old(self).end,
            keyword@.len() >= 1,
        ensures
            matches == matches_at(old(self).characters@, old(self).end - 1, keyword@),
            matches ==> final(self).moved(
                old(self),
                old(self).begin as int,
                old(self).end - 1 + keyword@.len(),
            ),
            !matches ==> *final(self) == *old(self),
    {
        let word = chars_of(keyword);
        let at = self.end - 1;
        if word.len() > self.characters.len() - at {
            return false;
        }
        let mut i: usize = 0;
        while i < word.len()
            invariant
                i <= word.len(),
                at + word.len() <= self.characters.len(),
                at == old(self).end - 1,
                *self == *old(self),
                word@ == keyword@,
                forall|j: int| 0 <= j < i ==> self.characters@[at + j] == word@[j],
            decreases word.len() - i,
        {
            if self.characters[at + i] != word[i] {
                proof {
                    assert(self.characters@.subrange(at as int, at + word.len())[i as int]
                        == self.characters@[at + i]);
                }
                return false;
            }
            i += 1;
        }
        assert(self.characters@.subrange(at as int, at + word.len()) =~= word@);
        let mut k: usize = 1;
        while k < word.len()
            invariant
                1 <= k <= word.len(),
                at + word.len() <= self.characters.len(),
                at == old(self).end - 1,
                self.moved(old(self), old(self).begin as int, at + k),
            decreases word.len() - k,
        {
            self.advance();
            k += 1;
        }
        true
    }

    /// The characters of the current token.
    pub fn lexeme(&self) -> (r: Option<String>)
        ensures
            self.begin <= self.end <= self.characters.len() ==> r is Some && r->Some_0@
                == self.characters@.subrange(self.begin as int, self.end as int),
            !(self.begin <= self.end <= self.characters.len()) ==> r is None,
    {
        if self.begin <= self.end && self.end <= self.characters.len() {
            Some(string_of(&self.characters, self.begin, self.end))
        } else {
            None
        }
    }

    /// Reads the rest of a number whose first digit has been read.
    fn number(&mut self) -> (kind: TokenKind)
        requires
            old(self).wf(),
            old(self).begin + 1 == old(self).end,
            is_digit_char(old(self).characters@[old(self).begin as int]),
        ensures
            final(self).moved(
                old(self),
                old(self).begin as int,
                digits_end(old(self).characters@, old(self).end as int),
            ),
            ({
                let value = digits_value(
                    old(self).characters@.subrange(old(self).begin as int, final(self).end as int),
                );
                kind@ == if value <= u64::MAX {
                    TokenKindView::LiteralInt(value as u64)
                } else {
                    TokenKindView::Error(LexerError::NumberTooLarge)
                }
            }),
    {
        while !self.eof() && is_digit(self.nth(0))
            invariant
                self.moved(old(self), old(self).begin as int, self.end as int),
                old(self).begin < self.end,
                digits_end(old(self).characters@, old(self).end as int) == digits_end(
                    self.characters@,
                    self.end as int,
                ),
                forall|j: int| self.begin <= j < self.end ==> is_digit_char(self.characters@[j]),
            decreases self.characters.len() - self.end,
        {
            self.advance();
        }
        let ghost digits = self.characters@.subrange(self.begin as int, self.end as int);
        let mut value: u64 = 0;
        let mut i: usize = self.begin;
        assert(digits.take(0) =~= Seq::<char>::empty());
        while i < self.end
            invariant
                self.begin <= i <= self.end <= self.characters.len(),
                self.moved(
                    old(self),
                    old(self).begin as int,
                    digits_end(old(self).characters@, old(self).end as int),
                ),
                digits == self.characters@.subrange(self.begin as int, self.end as int),
                forall|j: int| self.begin <= j < self.end ==> is_digit_char(self.characters@[j]),
                value == digits_value(digits.take(i - self.begin)),
            decreases self.end - i,
        {
            let d = digit_of(self.characters[i]);
            proof {
                let longer = digits.take(i + 1 - self.begin);
                assert(longer.drop_last() == digits.take(i - self.begin));
                assert(longer.last() == self.characters@[i as int]);
            }
            let next = value as u128 * 10 + d as u128;
            if next > u64::MAX as u128 {
                proof {
                    lemma_digits_value_grows(digits, i + 1 - self.begin);
                }
                return TokenKind::Error(LexerError::NumberTooLarge);
            }
            value = next as u64;
            i += 1;
        }
        proof {
            assert(digits.take(self.end - self.begin) == digits);
        }
        TokenKind::LiteralInt(value)
    }

    /// Reads the rest of a name whose first character has been read.
    fn name(&mut self) -> (kind: TokenKind)
        requires
            old(self).wf(),
            old(self).begin < old(self).end,
        ensures
            final(self).moved(
                old(self),
                old(self).begin as int,
                name_end(old(self).characters@, old(self).end as int),
            ),
            kind@ == TokenKindView::Name(
                old(self).characters@.subrange(old(self).begin as int, final(self).end as int),
            ),
    {
        while !self.eof() && (is_alphabetic(self.nth(0)) || self.nth(0) == '_')
            invariant
                self.moved(old(self), old(self).begin as int, self.end as int),
                name_end(old(self).characters@, old(self).end as int) == name_end(
                    self.characters@,
                    self.end as int,
                ),
            decreases self.characters.len() - self.end,
        {
            self.advance();
        }
        TokenKind::Name(string_of(&self.characters, self.begin, self.end))
    }

    /// Passes over a run of comments: each begins with `#` and goes to the
    /// end of its line.
    pub fn comments(&mut self)
        requires
            old(self).wf(),
        ensures
            final(self).moved(
                old(self),
                old(self).begin as int,
                comments_end(old(self).characters@, old(self).end as int),
            ),
    {
        while !self.eof() && self.nth(0) == '#'
            invariant
                self.moved(old(self), old(self).begin as int, self.end as int),
                comments_end(old(self).characters@, old(self).end as int) == comments_end(
                    self.characters@,
                    self.end as int,
                ),
            decreases self.characters.len() - self.end,
        {
            let ghost start = self.end as int;
            proof {
                lemma_comment_end(self.characters@, start);
                lemma_lines(self.characters@, start, 0);
            }
            while !self.eof() && self.nth(0) != '\n'
                invariant
                    self.moved(old(self), old(self).begin as int, self.end as int),
                    start <= self.end <= line_end(self.characters@, start) <= self.characters.len(),
                    line_end(self.characters@, start) == line_end(
                        self.characters@,
                        self.end as int,
                    ),
                decreases self.characters.len() - self.end,
            {
                proof {
                    lemma_lines(self.characters@, self.end + 1, 0);
                }
                self.advance();
            }
            self.advance();
        }
    }

    /// The keyword that stands where the character read last stands; the
    /// rest of it is read.
    fn any_keyword(&mut self) -> (r: Option<TokenKind>)
        requires
            old(self).wf(),
            old(self).begin < old(self).end,
        ensures
            match keyword_at(old(self).characters@, old(self).end - 1) {
                Some((kind, len)) => r is Some && r->Some_0@ == kind && final(self).moved(
                    old(self),
                    old(self).begin as int,
                    old(self).end - 1 + len,
                ),
                None => r is None && *final(self) == *old(self),
            },
    {
        proof {
            lemma_word_lengths();
        }
        if self.keyword("if") {
            Some(TokenKind::KeywordIf)
        } else if self.keyword("then") {
            Some(TokenKind::KeywordThen)
        } else if self.keyword("else") {
            Some(TokenKind::KeywordElse)
        } else if self.keyword("let") {
            Some(TokenKind::KeywordLet)
        } else if self.keyword("in") {
            Some(TokenKind::KeywordIn)
        } else if self.keyword("def") {
            Some(TokenKind::KeywordDef)
        } else if self.keyword("true") {
            Some(TokenKind::LiteralBool(true))
        } else if self.keyword("false") {
            Some(TokenKind::LiteralBool(false))
        } else {
            None
        }
    }

    /// The next token, or `None` at the end of the source. Whitespace and
    /// comments before the token are passed over.
    pub fn next_token(&mut self) -> (r: Option<Token>)
        requires
            old(self).wf(),
        ensures
            final(self).wf(),
            final(self).characters == old(self).characters,
            final(self).source_path == old(self).source_path,
            final(self).errors == old(self).errors,
            ({
                let chars = old(self).characters@;
                let at = trivia_end(chars, old(self).end as int);
                if at < chars.len() {
                    &&& r is Some
                    &&& r->Some_0@ == token_at(chars, old(self).source_path@, at)
                    &&& final(self).begin == at
                    &&& final(self).end == scan(chars, at).1
                    &&& final(self).is_ok == (old(self).is_ok && !(scan(chars, at).0 is Error))
                } else {
                    &&& r is None
                    &&& final(self).end == chars.len()
                    &&& final(self).is_ok == old(self).is_ok
                }
            }),
    {
        let mut moving = true;
        while moving
            invariant
                self.moved(old(self), old(self).begin as int, self.end as int),
                trivia_end(self.characters@, old(self).end as int) == trivia_end(
                    self.characters@,
                    self.end as int,
                ),
                !moving ==> trivia_end(self.characters@, self.end as int) == self.end,
            decreases self.characters.len() - self.end, moving as int,
        {
            let before = self.end;
            proof {
                lemma_whitespace_end(self.characters@, before as int);
                lemma_comments_end(
                    self.characters@,
                    whitespace_end(self.characters@, before as int),
                );
            }
            self.whitespace();
            self.comments();
            if self.end == before {
                moving = false;
            }
        }
        proof {
            lemma_trivia_end(self.characters@, old(self).end as int);
        }
        if self.eof() {
            return None;
        }
        self.begin = self.end;
        self.start_column = self.column;
        let ghost at = self.begin as int;
        proof {
            lemma_scan(self.characters@, at);
            lemma_word_lengths();
            lemma_digits_end(self.characters@, at + 1);
            lemma_name_end(self.characters@, at + 1);
        }
        let c = match self.advance() {
            Some(c) => c,
            None => '\0',
        };
        let kind = if self.keyword("->") {
            TokenKind::Arrow
        } else if c == '+' {
            TokenKind::Plus
        } else if c == '-' {
            TokenKind::Minus
        } else if c == ':' {
            TokenKind::Colon
        } else if c == ';' {
            TokenKind::Semi
        } else if c == ',' {
            TokenKind::Comma
        } else if c == '=' {
            TokenKind::Equal
        } else if c == '(' {
            TokenKind::ParenL
        } else if c == ')' {
            TokenKind::ParenR
        } else if c == '{' {
            TokenKind::CurlyL
        } else if c == '}' {
            TokenKind::CurlyR
        } else if c == '\\' {
            TokenKind::Backslash
        } else {
            let alphabetic = is_alphabetic(c);
            let word = if alphabetic {
                self.any_keyword()
            } else {
                None
            };
            match word {
                Some(kind) => kind,
                None => {
                    if is_digit(c) {
                        let kind = self.number();
                        match kind {
                            TokenKind::Error(_) => {
                                self.is_ok = false;
                            },
                            _ => {},
                        }
                        kind
                    } else if alphabetic {
                        self.name()
                    } else {
                        self.is_ok = false;
                        TokenKind::Error(LexerError::UnexpectedToken(c))
                    }
                },
            }
        };
        proof {
            lemma_line_column(self.characters@, self.end as int);
            lemma_line_column(self.characters@, self.begin as int);
        }
        Some(Token { kind, source_path: self.source_path.clone(), position: self.position() })
    }

    /// The tokens of the source from the next character on, with the `Eof`
    /// token at their end.
    pub fn lex(&mut self) -> (tokens: Vec<Token>)
        requires
            old(self).wf(),
        ensures
            final(self).wf(),
            final(self).characters == old(self).characters,
            final(self).source_path == old(self).source_path,
            final(self).errors == old(self).errors,
            final(self).end == old(self).characters.len(),
            token_views(tokens@) == tokens_from(
                old(self).characters@,
                old(self).source_path@,
                old(self).end as int,
            ),
            final(self).is_ok == (old(self).is_ok && no_error_token(tokens@)),
    {
        let mut tokens: Vec<Token> = Vec::new();
        let mut more = true;
        let ghost chars = self.characters@;
        let ghost path = self.source_path@;
        let ghost all = tokens_from(chars, path, self.end as int);
        assert(token_views(tokens@) + all =~= all);
        while more
            invariant
                self.wf(),
                self.characters == old(self).characters,
                self.source_path == old(self).source_path,
                self.errors == old(self).errors,
                chars == self.characters@,
                path == self.source_path@,
                all == tokens_from(chars, path, old(self).end as int),
                more ==> all == token_views(tokens@) + tokens_from(chars, path, self.end as int),
                !more ==> self.end == chars.len() && all == token_views(tokens@).push(
                    eof_token(chars, path, self.end as int),
                ),
                self.is_ok == (old(self).is_ok && no_error_token(tokens@)),
            decreases self.characters.len() - self.end, more as int,
        {
            let ghost from = self.end as int;
            let ghost so_far = token_views(tokens@);
            proof {
                lemma_trivia_end(chars, from);
                if trivia_end(chars, from) < chars.len() {
                    lemma_scan(chars, trivia_end(chars, from));
                }
            }
            match self.next_token() {
                Some(token) => {
                    proof {
                        lemma_no_error_push(tokens@, token);
                    }
                    tokens.push(token);
                    proof {
                        let at = trivia_end(chars, from);
                        assert(token_views(tokens@) =~= so_far.push(token_at(chars, path, at)));
                        assert(all =~= token_views(tokens@) + tokens_from(
                            chars,
                            path,
                            self.end as int,
                        ));
                    }
                },
                None => {
                    more = false;
                    proof {
                        assert(all =~= token_views(tokens@).push(
                            eof_token(chars, path, self.end as int),
                        ));
                    }
                },
            }
        }
        self.begin = self.end;
        self.start_column = self.column;
        proof {
            lemma_line_column(chars, self.end as int);
        }
        let ghost so_far = token_views(tokens@);
        let last = Token {
            kind: TokenKind::Eof,
            source_path: self.source_path.clone(),
            position: self.position(),
        };
        proof {
            lemma_no_error_push(tokens@, last);
        }
        tokens.push(last);
        assert(token_views(tokens@) =~= so_far.push(eof_token(chars, path, self.end as int)));
        tokens
    }

    /// The place of the current token.
    pub fn position(&self) -> (p: Position)
        ensures
            p == (Position {
                begin: self.begin,
                end: self.end,
                column: self.start_column,
                line: self.line,
            }),
    {
        Position { begin: self.begin, end: self.end, column: self.start_column, line: self.line }
    }
}

/// Whether none of the tokens is an error token.
pub open spec fn no_error_token(tokens: Seq<Token>) -> bool {
    forall|i: int| 0 <= i < tokens.len() ==> !((#[trigger] tokens[i])@.kind is Error)
}

/// A list with one more token has no error token if the list had none and
/// the token is none.
pub proof fn lemma_no_error_push(tokens: Seq<Token>, t: Token)
    ensures
        no_error_token(tokens.push(t)) == (no_error_token(tokens) && !(t@.kind is Error)),
{
    let longer = tokens.push(t);
    if no_error_token(tokens) && !(t@.kind is Error) {
        assert forall|i: int| 0 <= i < longer.len() implies !((#[trigger] longer[i])@.kind
            is Error) by {
            if i < tokens.len() {
                assert(longer[i] == tokens[i]);
            }
        }
    }
    if no_error_token(longer) {
        assert(longer[tokens.len() as int] == t);
        assert forall|i: int| 0 <= i < tokens.len() implies !((#[trigger] tokens[i])@.kind
            is Error) by {
            assert(longer[i] == tokens[i]);
        }
    }
}

/// A longer run of digits writes a number that is not smaller.
pub proof fn lemma_digits_value_grows(digits: Seq<char>, n: int)
    requires
        0 <= n <= digits.len(),
    ensures
        digits_value(digits.take(n)) <= digits_value(digits),
    decreases digits.len() - n,
{
    if n < digits.len() {
        lemma_digits_value_grows(digits, n + 1);
        assert(digits.take(n + 1).drop_last() == digits.take(n));
    } else {
        assert(digits.take(n) == digits);
    }
}

/// The sources that the lexer reads: paths with their texts.
pub type Input = Vec<(String, String)>;

/// What the lexer makes of them: paths with their tokens.
pub type Output = Vec<(String, Vec<Token>)>;

/// The diagnostics of the error tokens among `tokens`, in order.
pub open spec fn token_diagnostics(tokens: Seq<TokenView>) -> Seq<MessageView>
    decreases tokens.len(),
{
    if tokens.len() == 0 {
        seq![]
    } else {
        let front = token_diagnostics(tokens.drop_last());
        match tokens.last().diagnostic() {
            Some(m) => front.push(m),
            None => front,
        }
    }
}

/// Whether `output` holds the tokens of each source of `input`, in order.
pub open spec fn lexed(input: Seq<(String, String)>, output: Seq<(String, Vec<Token>)>) -> bool {
    &&& output.len() == input.len()
    &&& forall|i: int|
        0 <= i < input.len() ==> (#[trigger] output[i]).0@ == input[i].0@ && token_views(
            output[i].1@,
        ) == lex_spec(input[i].1@, input[i].0@)
}

/// The diagnostics of all error tokens of the sources, source by source.
pub open spec fn lexer_errors(input: Seq<(String, String)>) -> Seq<MessageView>
    decreases input.len(),
{
    if input.len() == 0 {
        seq![]
    } else {
        lexer_errors(input.drop_last()) + token_diagnostics(
            lex_spec(input.last().1@, input.last().0@),
        )
    }
}

/// Puts the diagnostics of the error tokens among `tokens` behind `errors`.
pub fn collect_diagnostics(tokens: &Vec<Token>, errors: &mut Vec<Message>)
    ensures
        message_views(final(errors)@) == message_views(old(errors)@) + token_diagnostics(
            token_views(tokens@),
        ),
{
    let ghost views = token_views(tokens@);
    let mut i: usize = 0;
    assert(views.take(0) =~= Seq::<TokenView>::empty());
    assert(message_views(errors@) =~= message_views(old(errors)@) + token_diagnostics(
        views.take(0),
    ));
    while i < tokens.len()
        invariant
            i <= tokens.len(),
            views == token_views(tokens@),
            message_views(errors@) == message_views(old(errors)@) + token_diagnostics(
                views.take(i as int),
            ),
        decreases tokens.len() - i,
    {
        proof {
            assert(views.take(i + 1).drop_last() =~= views.take(i as int));
            assert(views.take(i + 1).last() == tokens@[i as int]@);
        }
        let ghost before = message_views(errors@);
        match Message::try_from(&tokens[i]) {
            Ok(m) => {
                push_message(errors, m);
                assert(message_views(errors@) =~= message_views(old(errors)@) + token_diagnostics(
                    views.take(i + 1),
                ));
            },
            Err(_) => {},
        }
        i += 1;
    }
    assert(views.take(tokens.len() as int) =~= views);
}

impl Phase<Input, Output> for Lexer {
    /// A fresh lexer stands at the beginning of an empty source without a
    /// path: no character, no error token and no diagnostic so far, and all
    /// counters at zero.
    open spec fn fresh(&self) -> bool {
        &&& self.wf()
        &&& self.is_ok
        &&& self.begin == 0
        &&& self.end == 0
        &&& self.source_path@ == Seq::<char>::empty()
        &&& self.characters@ == Seq::<char>::empty()
        &&& self.errors@ == Seq::<Message>::empty()
    }

    /// A lexer over an empty source.
    fn new() -> Self {
        let lexer = Lexer::new((&String::new(), &String::new()));
        assert(lexer.source_path@ =~= Seq::<char>::empty());
        assert(lexer.characters@ =~= Seq::<char>::empty());
        assert(lexer.errors@ =~= Seq::<Message>::empty());
        lexer
    }

    /// Lexes every source. The output holds the tokens of each; the error
    /// tokens among them are reported, and the result is a soft error if
    /// there is any.
    fn run(&mut self, _config: &Config, input: &Input) -> (r: PhaseResult<Output>)
        ensures
            r.output() is Some,
            lexed(input@, r.output()->Some_0@),
            r.errors() == lexer_errors(input@),
            r is Success <==> lexer_errors(input@).len() == 0,
            !(r is Failure),
    {
        let mut out: Output = Vec::new();
        let mut errs: Vec<Message> = Vec::new();
        let mut i: usize = 0;
        assert(input@.take(0) =~= Seq::<(String, String)>::empty());
        assert(message_views(errs@) =~= lexer_errors(input@.take(0)));
        while i < input.len()
            invariant
                i <= input.len(),
                lexed(input@.take(i as int), out@),
                message_views(errs@) == lexer_errors(input@.take(i as int)),
            decreases input.len() - i,
        {
            *self = Lexer::new((&input[i].0, &input[i].1));
            let tokens = self.lex();
            proof {
                assert(input@.take(i + 1).drop_last() =~= input@.take(i as int));
                assert(input@.take(i + 1).last() == input@[i as int]);
            }
            collect_diagnostics(&tokens, &mut errs);
            let ghost before = out@;
            out.push((input[i].0.clone(), tokens));
            proof {
                assert forall|j: int| 0 <= j < i + 1 implies (#[trigger] out@[j]).0@ == input@.take(
                    i + 1,
                )[j].0@ && token_views(out@[j].1@) == lex_spec(
                    input@.take(i + 1)[j].1@,
                    input@.take(i + 1)[j].0@,
                ) by {
                    if j < i {
                        assert(out@[j] == before[j]);
                        assert(input@.take(i + 1)[j] == input@.take(i as int)[j]);
                    }
                }
            }
            i += 1;
        }
        proof {
            assert(input@.take(input.len() as int) =~= input@);
        }
        if errs.len() > 0 {
            PhaseResult::SoftErr(out, errs)
        } else {
            PhaseResult::Success(out)
        }
    }
}

} // verus!
