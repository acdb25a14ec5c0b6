//! Diagnostics: what a phase reports, and how a report is laid out as text.

use colored::Colorize;
use vstd::prelude::*;
use vstd::string::*;
use crate::language::token::Position;
use crate::text::{
    chars_of, clone_opt, decimal, decimal_string, opt_view, push_repeated, repeated, str_eq,
    string_of,
};

verus! {

/// How serious a diagnostic is.
#[derive(PartialEq, Eq, Structural, PartialOrd, Ord, Copy, Clone, Debug)]
pub enum Severity {
    Hint,
    Warning,
    Error,
}

/// The words of a diagnostic.
#[derive(PartialEq, Eq, PartialOrd, Ord, Debug)]
pub struct Content {
    /// The headline.
    pub message: String,
    /// What is written beside the marked span.
    pub indicator_message: Option<String>,
    /// A suggestion for a fix.
    pub fix_hint: Option<String>,
}

/// Mathematical model of [`Content`].
pub struct ContentView {
    pub message: Seq<char>,
    pub indicator_message: Option<Seq<char>>,
    pub fix_hint: Option<Seq<char>>,
}

impl View for Content {
    type V = ContentView;

    open spec fn view(&self) -> ContentView {
        ContentView {
            message: self.message@,
            indicator_message: opt_view(self.indicator_message),
            fix_hint: opt_view(self.fix_hint),
        }
    }
}

impl Clone for Content {
    fn clone(&self) -> (r: Self)
        ensures
            r@ == self@,
    {
        Content {
            message: self.message.clone(),
            indicator_message: clone_opt(&self.indicator_message),
            fix_hint: clone_opt(&self.fix_hint),
        }
    }
}

/// A diagnostic: words, a place in a source, and a severity.
#[derive(PartialEq, Eq, PartialOrd, Ord, Debug)]
pub struct Message {
    pub severity: Severity,
    pub position: Position,
    pub content: Content,
    /// Path of the source that the position lies in.
    pub source_path: String,
}

/// Mathematical model of [`Message`].
pub struct MessageView {
    pub severity: Severity,
    pub position: Position,
    pub content: ContentView,
    pub source_path: Seq<char>,
}

impl View for Message {
    type V = MessageView;

    open spec fn view(&self) -> MessageView {
        MessageView {
            severity: self.severity,
            position: self.position,
            content: self.content@,
            source_path: self.source_path@,
        }
    }
}

impl Clone for Message {
    fn clone(&self) -> (r: Self)
        ensures
            r@ == self@,
    {
        Message {
            severity: self.severity,
            position: self.position,
            content: self.content.clone(),
            source_path: self.source_path.clone(),
        }
    }
}

/// The models of a list of diagnostics, in order.
pub open spec fn message_views(ms: Seq<Message>) -> Seq<MessageView> {
    ms.map_values(|m: Message| m@)
}

/// Puts `m` behind the diagnostics in `errors`.
pub fn push_message(errors: &mut Vec<Message>, m: Message)
    ensures
        message_views(final(errors)@) == message_views(old(errors)@).push(m@),
{
    errors.push(m);
    assert(message_views(errors@) =~= message_views(old(errors)@).push(m@));
}

/// Moves the diagnostics of `more` behind those in `errors`.
pub fn append_messages(errors: &mut Vec<Message>, more: &Vec<Message>)
    ensures
        message_views(final(errors)@) == message_views(old(errors)@) + message_views(more@),
{
    let mut i: usize = 0;
    assert(message_views(errors@) =~= message_views(old(errors)@) + message_views(more@.take(0)));
    while i < more.len()
        invariant
            i <= more.len(),
            message_views(errors@) == message_views(old(errors)@) + message_views(
                more@.take(i as int),
            ),
        decreases more.len() - i,
    {
        let ghost before = message_views(errors@);
        push_message(errors, more[i].clone());
        assert(message_views(more@.take(i + 1)) =~= message_views(more@.take(i as int)).push(
            more@[i as int]@,
        ));
        assert(message_views(errors@) =~= message_views(old(errors)@) + message_views(
            more@.take(i + 1),
        ));
        i += 1;
    }
    assert(more@.take(more.len() as int) == more@);
}

/// What `colored` writes for `text` in bright red when colours are on.
pub uninterp spec fn in_bright_red(text: Seq<char>) -> Seq<char>;

/// What `colored` writes for `text` in yellow when colours are on.
pub uninterp spec fn in_yellow(text: Seq<char>) -> Seq<char>;

/// What `colored` writes for `text` in bright blue when colours are on.
pub uninterp spec fn in_bright_blue(text: Seq<char>) -> Seq<char>;

/// What `colored` writes for `text` in bold when colours are on.
pub uninterp spec fn in_bold(text: Seq<char>) -> Seq<char>;

/// Calls `Colorize::bright_red` of the crate `colored` and writes the
/// result out. Where colours are off (no terminal, or the environment says
/// so) that is the text itself; where they are on, it is the text with the
/// codes for bright red round it, which the contract names.
#[verifier::external_body]
fn bright_red(text: &str) -> (out: String)
    ensures
        out@ == text@ || out@ == in_bright_red(text@),
{
    text.bright_red().to_string()
}

/// Calls `Colorize::yellow` of the crate `colored` and writes the result
/// out: the text itself where colours are off, the text with the codes for
/// yellow round it where they are on.
#[verifier::external_body]
fn yellow(text: &str) -> (out: String)
    ensures
        out@ == text@ || out@ == in_yellow(text@),
{
    text.yellow().to_string()
}

/// Calls `Colorize::bright_blue` of the crate `colored` and writes the
/// result out: the text itself where colours are off, the text with the
/// codes for bright blue round it where they are on.
#[verifier::external_body]
fn bright_blue(text: &str) -> (out: String)
    ensures
        out@ == text@ || out@ == in_bright_blue(text@),
{
    text.bright_blue().to_string()
}

/// Calls `Colorize::bold` of the crate `colored` and writes the result out:
/// the text itself where colours are off, the text with the codes for bold
/// round it where they are on.
#[verifier::external_body]
fn bold(text: &str) -> (out: String)
    ensures
        out@ == text@ || out@ == in_bold(text@),
{
    text.bold().to_string()
}

impl Severity {
    /// The severity as diagnostics write it.
    pub open spec fn spec_name(self) -> Seq<char> {
        match self {
            Severity::Error => "error"@,
            Severity::Warning => "warning"@,
            Severity::Hint => "hint"@,
        }
    }

    /// The severity as diagnostics write it.
    pub fn name(self) -> (s: &'static str)
        ensures
            s@ == self.spec_name(),
    {
        match self {
            Severity::Error => "error",
            Severity::Warning => "warning",
            Severity::Hint => "hint",
        }
    }
}

/// A path without a leading `./`.
pub open spec fn relative_path(path: Seq<char>) -> Seq<char> {
    if path.len() >= 2 && path[0] == '.' && path[1] == '/' {
        path.skip(2)
    } else {
        path
    }
}

/// Index of the first line feed of `s` at or behind `from`, or the length
/// of `s` where there is none.
pub open spec fn line_end(s: Seq<char>, from: int) -> int
    decreases s.len() - from,
{
    if from >= s.len() || from < 0 {
        s.len() as int
    } else if s[from] == '\n' {
        from
    } else {
        line_end(s, from + 1)
    }
}

/// Index at which the line with the number `n` begins, counted from the
/// line that begins at `from`; the length of `s` where `s` has no such line.
pub open spec fn line_start(s: Seq<char>, from: int, n: nat) -> int
    decreases n,
{
    if n == 0 || from < 0 {
        from
    } else if line_end(s, from) >= s.len() {
        s.len() as int
    } else {
        line_start(s, line_end(s, from) + 1, (n - 1) as nat)
    }
}

/// The line of `s` with the number `n`, counted from zero, without its line
/// ending: a line feed, or a carriage return and a line feed. Empty where
/// `s` has no such line.
pub open spec fn line_at(s: Seq<char>, n: nat) -> Seq<char> {
    let begin = line_start(s, 0, n);
    if begin >= s.len() {
        Seq::empty()
    } else {
        let end = line_end(s, begin);
        if end < s.len() && begin < end && s[end - 1] == '\r' {
            s.subrange(begin, end - 1)
        } else {
            s.subrange(begin, end)
        }
    }
}

/// Where a line ends and where a later line begins.
pub proof fn lemma_lines(s: Seq<char>, from: int, n: nat)
    requires
        0 <= from <= s.len(),
    ensures
        from <= line_end(s, from) <= s.len(),
        from <= line_start(s, from, n) <= s.len(),
        forall|i: int| from <= i < line_end(s, from) ==> s[i] != '\n',
        line_end(s, from) < s.len() ==> s[line_end(s, from)] == '\n',
    decreases n, s.len() - from,
{
    if from < s.len() && s[from] != '\n' {
        lemma_lines(s, from + 1, 0);
    }
    if n > 0 {
        lemma_lines(s, from, 0);
        if line_end(s, from) < s.len() {
            lemma_lines(s, line_end(s, from) + 1, (n - 1) as nat);
        }
    }
}

fn find_line_end(s: &Vec<char>, from: usize) -> (end: usize)
    requires
        from <= s.len(),
    ensures
        end as int == line_end(s@, from as int),
        from <= end <= s.len(),
{
    let mut i = from;
    while i < s.len() && s[i] != '\n'
        invariant
            from <= i <= s.len(),
            line_end(s@, from as int) == line_end(s@, i as int),
        decreases s.len() - i,
    {
        i += 1;
    }
    i
}

/// The line of `source` with the number `n`.
pub fn source_line(source: &str, n: usize) -> (line: String)
    ensures
        line@ == line_at(source@, n as nat),
{
    let s = chars_of(source);
    let mut begin: usize = 0;
    let mut left: usize = n;
    while left > 0 && begin < s.len()
        invariant
            begin <= s.len(),
            line_start(s@, 0, n as nat) == line_start(s@, begin as int, left as nat),
        decreases left,
    {
        let end = find_line_end(&s, begin);
        if end >= s.len() {
            begin = s.len();
            proof {
                lemma_lines(s@, s.len() as int, (left - 1) as nat);
                assert(line_start(s@, s.len() as int, (left - 1) as nat) == s.len()) by {
                    lemma_line_start_at_end(s@, (left - 1) as nat);
                }
                lemma_line_start_at_end(s@, left as nat);
            }
        } else {
            begin = end + 1;
        }
        left -= 1;
    }
    proof {
        if begin >= s.len() {
            lemma_line_start_at_end(s@, left as nat);
        }
    }
    if begin >= s.len() {
        return String::new();
    }
    let end = find_line_end(&s, begin);
    if end < s.len() && begin < end && s[end - 1] == '\r' {
        string_of(&s, begin, end - 1)
    } else {
        string_of(&s, begin, end)
    }
}

/// Behind the end of the text every line begins at the end.
pub proof fn lemma_line_start_at_end(s: Seq<char>, n: nat)
    ensures
        line_start(s, s.len() as int, n) == s.len(),
    decreases n,
{
    if n > 0 {
        assert(line_end(s, s.len() as int) == s.len());
    }
}

impl MessageView {
    /// The headline before it is painted: the severity, then the message.
    pub open spec fn header_text(self, severity: Seq<char>) -> Seq<char> {
        severity + ": "@ + self.content.message
    }

    /// Where the diagnostic points: path, line counted from one, and column.
    pub open spec fn location(self) -> Seq<char> {
        " "@ + relative_path(self.source_path) + ":"@ + decimal((self.position.line + 1) as nat)
            + ":"@ + decimal(self.position.column as nat)
    }

    /// What stands before the source line: the number of the line, counted
    /// from one.
    pub open spec fn gutter_text(self) -> Seq<char> {
        decimal((self.position.line + 1) as nat) + " | "@
    }

    /// Number of carets under the source line: the length of the span.
    pub open spec fn span_len(self) -> nat {
        if self.position.end >= self.position.begin {
            (self.position.end - self.position.begin) as nat
        } else {
            0
        }
    }

    /// The line under the source line: carets under the span, and the
    /// indicator message behind them.
    pub open spec fn indicator_text(self) -> Seq<char> {
        repeated(' ', decimal(self.position.line as nat).len() + 3) + repeated(
            ' ',
            self.position.column as nat,
        ) + repeated('^', self.span_len()) + match self.content.indicator_message {
            Some(m) => m,
            None => Seq::empty(),
        }
    }

    /// The four lines of a diagnostic, from the pieces that may be painted
    /// (`header`, `arrow`, `gutter` and `indicator`) and those never painted.
    pub open spec fn laid_out(
        self,
        source: Seq<char>,
        header: Seq<char>,
        arrow: Seq<char>,
        gutter: Seq<char>,
        indicator: Seq<char>,
    ) -> Seq<char> {
        header + "\n"@ + arrow + self.location() + "\n"@ + gutter + line_at(
            source,
            self.position.line as nat,
        ) + "\n"@ + indicator + "\n"@
    }

    /// Whether `painted` is the name of the severity in its colour, or
    /// the plain name: errors are bright red, warnings yellow, hints bright
    /// blue.
    pub open spec fn severity_painted(self, painted: Seq<char>) -> bool {
        let name = self.severity.spec_name();
        painted == name || painted == match self.severity {
            Severity::Error => in_bright_red(name),
            Severity::Warning => in_yellow(name),
            Severity::Hint => in_bright_blue(name),
        }
    }

    /// Whether the pieces are those of the diagnostic, each painted or
    /// plain: the headline bold, with the severity in its colour; the arrow
    /// bold and bright blue; the line number bright blue and bold; the
    /// carets bold.
    pub open spec fn painted(self, pieces: Painted) -> bool {
        &&& self.severity_painted(pieces.severity)
        &&& bold_or_plain(pieces.header, self.header_text(pieces.severity))
        &&& bold_or_plain(pieces.bold_arrow, " -->"@)
        &&& blue_or_plain(pieces.arrow, pieces.bold_arrow)
        &&& blue_or_plain(pieces.blue_gutter, self.gutter_text())
        &&& bold_or_plain(pieces.gutter, pieces.blue_gutter)
        &&& bold_or_plain(pieces.indicator, self.indicator_text())
    }

    /// Whether `text` is the diagnostic as a terminal shows it: its four
    /// lines, with the pieces painted or plain.
    pub open spec fn is_rendering(self, source: Seq<char>, text: Seq<char>) -> bool {
        exists|pieces: Painted| #[trigger]
            self.painted(pieces) && text == self.laid_out(
                source,
                pieces.header,
                pieces.arrow,
                pieces.gutter,
                pieces.indicator,
            )
    }
}

/// The pieces of a diagnostic that may be painted, with what they are
/// painted from.
pub struct Painted {
    /// The name of the severity.
    pub severity: Seq<char>,
    /// The headline.
    pub header: Seq<char>,
    /// The arrow before the place, in bold.
    pub bold_arrow: Seq<char>,
    /// The arrow before the place.
    pub arrow: Seq<char>,
    /// The line number, in bright blue.
    pub blue_gutter: Seq<char>,
    /// The line number.
    pub gutter: Seq<char>,
    /// The line of carets.
    pub indicator: Seq<char>,
}

/// Whether `out` is `text`, plain or in bold.
pub open spec fn bold_or_plain(out: Seq<char>, text: Seq<char>) -> bool {
    out == text || out == in_bold(text)
}

/// Whether `out` is `text`, plain or in bright blue.
pub open spec fn blue_or_plain(out: Seq<char>, text: Seq<char>) -> bool {
    out == text || out == in_bright_blue(text)
}

/// The text of the source at `path`; empty where `sources` has none.
pub open spec fn source_text(sources: Seq<(String, String)>, path: Seq<char>) -> Seq<char>
    decreases sources.len(),
{
    if sources.len() == 0 {
        Seq::empty()
    } else if sources.first().0@ == path {
        sources.first().1@
    } else {
        source_text(sources.drop_first(), path)
    }
}

/// `texts` one below the other, with an empty line between two of them.
pub open spec fn joined(texts: Seq<Seq<char>>) -> Seq<char>
    decreases texts.len(),
{
    if texts.len() == 0 {
        Seq::empty()
    } else if texts.len() == 1 {
        texts.last()
    } else {
        joined(texts.drop_last()) + "\n"@ + texts.last()
    }
}

impl Message {
    /// The headline before it is painted.
    pub fn header(&self, severity: &str) -> (s: String)
        ensures
            s@ == self@.header_text(severity@),
    {
        let mut s = String::from_str(severity);
        s.append(": ");
        s.append(self.content.message.as_str());
        s
    }

    /// The number of the line before it is painted.
    pub fn gutter(&self) -> (s: String)
        ensures
            s@ == self@.gutter_text(),
    {
        let mut s = decimal_string(self.position.line as u128 + 1);
        s.append(" | ");
        s
    }

    /// The line of carets before it is painted.
    pub fn indicator(&self) -> (s: String)
        ensures
            s@ == self@.indicator_text(),
    {
        let width = decimal_string(self.position.line as u128);
        let mut s = String::new();
        push_repeated(&mut s, ' ', width.as_str().unicode_len());
        push_repeated(&mut s, ' ', 3);
        assert(s@ =~= repeated(' ', decimal(self.position.line as nat).len() + 3));
        push_repeated(&mut s, ' ', self.position.column);
        let carets = if self.position.end >= self.position.begin {
            self.position.end - self.position.begin
        } else {
            0
        };
        push_repeated(&mut s, '^', carets);
        match &self.content.indicator_message {
            Some(m) => {
                s.append(m.as_str());
            },
            None => {
                assert(s@ + Seq::<char>::empty() =~= s@);
            },
        }
        s
    }

    /// The path of the source without a leading `./`.
    pub fn shown_path(&self) -> (s: String)
        ensures
            s@ == relative_path(self.source_path@),
    {
        let path = chars_of(self.source_path.as_str());
        if path.len() >= 2 && path[0] == '.' && path[1] == '/' {
            string_of(&path, 2, path.len())
        } else {
            assert(path@.subrange(0, path.len() as int) == path@);
            string_of(&path, 0, path.len())
        }
    }

    /// The four lines of the diagnostic, from its painted pieces.
    pub fn layout(&self, source: &str, header: &str, arrow: &str, gutter: &str, indicator: &str) -> (s:
        String)
        ensures
            s@ == self@.laid_out(source@, header@, arrow@, gutter@, indicator@),
    {
        let mut s = String::from_str(header);
        s.append("\n");
        s.append(arrow);
        let mut location = String::from_str(" ");
        location.append(self.shown_path().as_str());
        location.append(":");
        location.append(decimal_string(self.position.line as u128 + 1).as_str());
        location.append(":");
        location.append(decimal_string(self.position.column as u128).as_str());
        s.append(location.as_str());
        s.append("\n");
        s.append(gutter);
        s.append(source_line(source, self.position.line).as_str());
        s.append("\n");
        s.append(indicator);
        s.append("\n");
        s
    }

    /// The diagnostic as text for a terminal: the headline, the place, the
    /// line of the source, and carets under the span. Headline, arrow, line
    /// number and carets are painted; whether that adds colour codes is for
    /// the terminal to say.
    pub fn format(&self, source: &str) -> (s: String)
        ensures
            self@.is_rendering(source@, s@),
    {
        let severity = match self.severity {
            Severity::Error => bright_red(self.severity.name()),
            Severity::Warning => yellow(self.severity.name()),
            Severity::Hint => bright_blue(self.severity.name()),
        };
        let header = bold(self.header(severity.as_str()).as_str());
        let bold_arrow = bold(" -->");
        let arrow = bright_blue(bold_arrow.as_str());
        let blue_gutter = bright_blue(self.gutter().as_str());
        let gutter = bold(blue_gutter.as_str());
        let indicator = bold(self.indicator().as_str());
        proof {
            let pieces = Painted {
                severity: severity@,
                header: header@,
                bold_arrow: bold_arrow@,
                arrow: arrow@,
                blue_gutter: blue_gutter@,
                gutter: gutter@,
                indicator: indicator@,
            };
            assert(self@.painted(pieces));
        }
        self.layout(source, header.as_str(), arrow.as_str(), gutter.as_str(), indicator.as_str())
    }

    /// The diagnostics of `errors` as text, each with the source that it
    /// points into, an empty line between two of them.
    pub fn format_errors(sources: &Vec<(String, String)>, errors: &Vec<Self>) -> (s: String)
        ensures
            exists|texts: Seq<Seq<char>>|
                #![trigger joined(texts)]
                texts.len() == errors.len() && s@ == joined(texts) && forall|i: int|
                    0 <= i < texts.len() ==> errors[i]@.is_rendering(
                        source_text(sources@, errors[i]@.source_path),
                        #[trigger] texts[i],
                    ),
    {
        let mut s = String::new();
        let ghost mut texts: Seq<Seq<char>> = Seq::empty();
        let mut i: usize = 0;
        while i < errors.len()
            invariant
                i <= errors.len(),
                texts.len() == i,
                s@ == joined(texts),
                forall|j: int|
                    0 <= j < texts.len() ==> errors[j]@.is_rendering(
                        source_text(sources@, errors[j]@.source_path),
                        #[trigger] texts[j],
                    ),
            decreases errors.len() - i,
        {
            let source = find_source(sources, errors[i].source_path.as_str());
            let text = errors[i].format(source.as_str());
            if i > 0 {
                s.append("\n");
            }
            s.append(text.as_str());
            proof {
                let longer = texts.push(text@);
                assert(longer.drop_last() == texts);
                assert(s@ =~= joined(longer));
                texts = longer;
            }
            i += 1;
        }
        s
    }
}

/// The text of the source at `path`; empty where `sources` has none.
pub fn find_source(sources: &Vec<(String, String)>, path: &str) -> (text: String)
    ensures
        text@ == source_text(sources@, path@),
{
    let mut i: usize = 0;
    assert(sources@.skip(0) == sources@);
    while i < sources.len()
        invariant
            i <= sources.len(),
            source_text(sources@, path@) == source_text(sources@.skip(i as int), path@),
        decreases sources.len() - i,
    {
        proof {
            assert(sources@.skip(i as int).drop_first() == sources@.skip(i + 1));
            assert(sources@.skip(i as int).first() == sources@[i as int]);
        }
        if str_eq(sources[i].0.as_str(), path) {
            return sources[i].1.clone();
        }
        i += 1;
    }
    String::new()
}

} // verus!
