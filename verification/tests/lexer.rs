use sfl::language::token::{Position, Token, TokenKind};
use sfl::message::{Message, Severity};
use sfl::phase::lexer::{Lexer, LexerError};
use sfl::phase::{Phase, PhaseResult};
use sfl::config::Config;

fn lex(source: &str) -> Vec<Token> {
    let path = String::from("./main.sfl");
    let text = String::from(source);
    let mut lexer = Lexer::new((&path, &text));
    lexer.lex()
}

fn kinds(source: &str) -> Vec<TokenKind> {
    lex(source).into_iter().map(|t| t.kind).collect()
}

fn name(s: &str) -> TokenKind {
    TokenKind::Name(String::from(s))
}

#[test]
fn lexes_one_plus_two() {
    assert_eq!(
        kinds("1 + 2"),
        vec![TokenKind::LiteralInt(1), TokenKind::Plus, TokenKind::LiteralInt(2), TokenKind::Eof]
    );
}

#[test]
fn token_positions_of_one_plus_two() {
    let tokens = lex("1 + 2");
    let positions: Vec<Position> = tokens.iter().map(|t| t.position).collect();
    assert_eq!(
        positions,
        vec![
            Position { line: 0, column: 0, begin: 0, end: 1 },
            Position { line: 0, column: 2, begin: 2, end: 3 },
            Position { line: 0, column: 4, begin: 4, end: 5 },
            Position { line: 0, column: 5, begin: 5, end: 5 },
        ]
    );
    for t in &tokens {
        assert_eq!(t.source_path, "./main.sfl");
    }
}

#[test]
fn empty_source_has_only_eof() {
    let tokens = lex("");
    assert_eq!(tokens.len(), 1);
    assert_eq!(tokens[0].kind, TokenKind::Eof);
    assert_eq!(tokens[0].position, Position { line: 0, column: 0, begin: 0, end: 0 });
}

#[test]
fn whitespace_only_source_has_only_eof_at_the_end() {
    let tokens = lex("  \n\t ");
    assert_eq!(tokens.len(), 1);
    assert_eq!(tokens[0].kind, TokenKind::Eof);
    assert_eq!(tokens[0].position, Position { line: 1, column: 2, begin: 5, end: 5 });
}

#[test]
fn every_punctuation_and_operator() {
    assert_eq!(
        kinds("+ - ( ) { } \\ : -> = , ;"),
        vec![
            TokenKind::Plus,
            TokenKind::Minus,
            TokenKind::ParenL,
            TokenKind::ParenR,
            TokenKind::CurlyL,
            TokenKind::CurlyR,
            TokenKind::Backslash,
            TokenKind::Colon,
            TokenKind::Arrow,
            TokenKind::Equal,
            TokenKind::Comma,
            TokenKind::Semi,
            TokenKind::Eof,
        ]
    );
}

#[test]
fn arrow_wins_over_minus() {
    assert_eq!(kinds("->"), vec![TokenKind::Arrow, TokenKind::Eof]);
    assert_eq!(kinds("-"), vec![TokenKind::Minus, TokenKind::Eof]);
    assert_eq!(kinds("- >"), vec![
        TokenKind::Minus,
        TokenKind::Error(LexerError::UnexpectedToken('>')),
        TokenKind::Eof
    ]);
    assert_eq!(kinds("-->"), vec![TokenKind::Minus, TokenKind::Arrow, TokenKind::Eof]);
}

#[test]
fn every_keyword() {
    assert_eq!(
        kinds("if then else let in def true false"),
        vec![
            TokenKind::KeywordIf,
            TokenKind::KeywordThen,
            TokenKind::KeywordElse,
            TokenKind::KeywordLet,
            TokenKind::KeywordIn,
            TokenKind::KeywordDef,
            TokenKind::LiteralBool(true),
            TokenKind::LiteralBool(false),
            TokenKind::Eof,
        ]
    );
}

#[test]
fn a_keyword_counts_wherever_its_letters_stand() {
    assert_eq!(kinds("iffy"), vec![TokenKind::KeywordIf, name("fy"), TokenKind::Eof]);
    assert_eq!(kinds("index"), vec![TokenKind::KeywordIn, name("dex"), TokenKind::Eof]);
    assert_eq!(kinds("id"), vec![name("id"), TokenKind::Eof]);
}

#[test]
fn names_take_letters_and_underscores() {
    assert_eq!(kinds("foo_bar baz"), vec![name("foo_bar"), name("baz"), TokenKind::Eof]);
    assert_eq!(kinds("x1"), vec![name("x"), TokenKind::LiteralInt(1), TokenKind::Eof]);
    assert_eq!(
        kinds("_x"),
        vec![TokenKind::Error(LexerError::UnexpectedToken('_')), name("x"), TokenKind::Eof]
    );
    assert_eq!(kinds("\u{e9}t\u{e9}"), vec![name("\u{e9}t\u{e9}"), TokenKind::Eof]);
}

#[test]
fn numbers_are_runs_of_digits() {
    assert_eq!(kinds("0"), vec![TokenKind::LiteralInt(0), TokenKind::Eof]);
    assert_eq!(kinds("007"), vec![TokenKind::LiteralInt(7), TokenKind::Eof]);
    assert_eq!(kinds("41"), vec![TokenKind::LiteralInt(41), TokenKind::Eof]);
    assert_eq!(
        kinds("18446744073709551615"),
        vec![TokenKind::LiteralInt(18446744073709551615), TokenKind::Eof]
    );
}

#[test]
fn a_number_above_u64_is_an_error_token() {
    let tokens = lex("18446744073709551616 1");
    assert_eq!(tokens[0].kind, TokenKind::Error(LexerError::NumberTooLarge));
    assert_eq!(tokens[0].position, Position { line: 0, column: 0, begin: 0, end: 20 });
    assert_eq!(tokens[1].kind, TokenKind::LiteralInt(1));
    assert_eq!(tokens[2].kind, TokenKind::Eof);
    let tokens = lex("99999999999999999999999999999999");
    assert_eq!(tokens[0].kind, TokenKind::Error(LexerError::NumberTooLarge));
    assert_eq!(tokens[0].position.end, 32);
}

#[test]
fn an_unexpected_character_is_an_error_token_and_lexing_goes_on() {
    assert_eq!(
        kinds("1 $ 2"),
        vec![
            TokenKind::LiteralInt(1),
            TokenKind::Error(LexerError::UnexpectedToken('$')),
            TokenKind::LiteralInt(2),
            TokenKind::Eof
        ]
    );
}

#[test]
fn comments_go_to_the_end_of_the_line() {
    assert_eq!(
        kinds("# a comment\n1 # another\n  # and more\n+ 2 # last"),
        vec![TokenKind::LiteralInt(1), TokenKind::Plus, TokenKind::LiteralInt(2), TokenKind::Eof]
    );
    assert_eq!(kinds("#"), vec![TokenKind::Eof]);
    assert_eq!(kinds("1 #"), vec![TokenKind::LiteralInt(1), TokenKind::Eof]);
}

#[test]
fn lines_and_columns_are_counted() {
    let tokens = lex("let x =\n  1\n# c\n in x");
    let got: Vec<(usize, usize, usize, usize)> = tokens
        .iter()
        .map(|t| (t.position.line, t.position.column, t.position.begin, t.position.end))
        .collect();
    assert_eq!(
        got,
        vec![
            (0, 0, 0, 3),
            (0, 4, 4, 5),
            (0, 6, 6, 7),
            (1, 2, 10, 11),
            (3, 1, 17, 19),
            (3, 4, 20, 21),
            (3, 5, 21, 21),
        ]
    );
}

#[test]
fn tokens_tile_the_source() {
    let source = "let id = \\x -> x # identity\n in (id 1) + 20 $";
    let chars: Vec<char> = source.chars().collect();
    let tokens = lex(source);
    let mut from = 0;
    let mut lexemes = String::new();
    for t in &tokens {
        assert!(from <= t.position.begin);
        let gap: String = chars[from..t.position.begin].iter().collect();
        let mut in_comment = false;
        for c in gap.chars() {
            if c == '#' {
                in_comment = true;
            } else if c == '\n' {
                in_comment = false;
            } else {
                assert!(in_comment || c.is_whitespace());
            }
        }
        if t.kind == TokenKind::Eof {
            assert_eq!(t.position.begin, chars.len());
            assert_eq!(t.position.end, chars.len());
        } else {
            assert!(t.position.begin < t.position.end);
            lexemes.extend(chars[t.position.begin..t.position.end].iter());
        }
        from = t.position.end;
    }
    assert_eq!(lexemes, "letid=\\x->xin(id1)+20$");
    assert_eq!(tokens.last().map(|t| t.kind.clone()), Some(TokenKind::Eof));
}

#[test]
fn token_text() {
    let tokens = lex("let x = 12 in true -> foo");
    let texts: Vec<String> = tokens.iter().map(|t| t.text()).collect();
    assert_eq!(texts, vec!["let", "x", "=", "12", "in", "true", "->", "foo", "<eof>"]);
    assert_eq!(TokenKind::Error(LexerError::NumberTooLarge).text(), "<error>");
    assert_eq!(TokenKind::LiteralBool(false).text(), "false");
    assert_eq!(TokenKind::LiteralInt(18446744073709551615).text(), "18446744073709551615");
    assert_eq!(TokenKind::Backslash.text(), "\\");
    assert_eq!(TokenKind::KeywordDef.text(), "def");
}

#[test]
fn kinds_are_compared_by_variant() {
    assert_eq!(name("a").tag(), name("b").tag());
    assert_eq!(TokenKind::LiteralInt(1).tag(), TokenKind::LiteralInt(2).tag());
    assert_ne!(TokenKind::LiteralInt(1).tag(), TokenKind::LiteralBool(true).tag());
    assert_ne!(TokenKind::Plus.tag(), TokenKind::Minus.tag());
}

#[test]
fn diagnostic_of_an_error_token() {
    let tokens = lex("1 $");
    let m = Message::try_from(&tokens[1]).expect("an error token has a diagnostic");
    assert_eq!(m.severity, Severity::Error);
    assert_eq!(m.content.message, "Unexpected character '$'");
    assert_eq!(m.content.indicator_message, Some(String::from("found here")));
    assert_eq!(m.content.fix_hint, None);
    assert_eq!(m.position, Position { line: 0, column: 2, begin: 2, end: 3 });
    assert_eq!(m.source_path, "./main.sfl");
    assert!(Message::try_from(&tokens[0]).is_err());
    assert!(Message::try_from(&tokens[2]).is_err());
    let tokens = lex("99999999999999999999");
    let m = Message::try_from(&tokens[0]).expect("an error token has a diagnostic");
    assert_eq!(m.content.message, "this number is too large");
}

#[test]
fn lexer_helpers_step_by_step() {
    let path = String::from("p");
    let text = String::from("ab\ncd");
    let mut lexer = Lexer::new((&path, &text));
    assert!(!lexer.eof());
    assert_eq!(lexer.nth(0), 'a');
    assert_eq!(lexer.nth(1), 'b');
    assert_eq!(lexer.nth(100), 'd');
    assert_eq!(lexer.advance(), Some('a'));
    assert_eq!(lexer.lexeme(), Some(String::from("a")));
    assert!(lexer.keyword("ab"));
    assert_eq!(lexer.end, 2);
    assert!(!lexer.keyword("bx"));
    assert_eq!(lexer.end, 2);
    assert_eq!(lexer.advance(), Some('\n'));
    assert_eq!((lexer.line, lexer.column), (1, 0));
    assert_eq!(lexer.advance(), Some('c'));
    assert_eq!(lexer.advance(), Some('d'));
    assert_eq!((lexer.line, lexer.column), (1, 2));
    assert!(lexer.eof());
    assert_eq!(lexer.advance(), None);
    assert_eq!(lexer.position(), Position { line: 1, column: 0, begin: 0, end: 5 });
}

#[test]
fn whitespace_and_comments_are_passed_over() {
    let path = String::from("p");
    let text = String::from("  \t# c\n# d\nx");
    let mut lexer = Lexer::new((&path, &text));
    lexer.whitespace();
    assert_eq!(lexer.end, 3);
    lexer.comments();
    assert_eq!(lexer.end, 11);
    assert_eq!(lexer.nth(0), 'x');
    let token = lexer.next_token().expect("a token is left");
    assert_eq!(token.kind, TokenKind::Name(String::from("x")));
    assert!(lexer.next_token().is_none());
}

#[test]
fn lexer_phase_reports_error_tokens() {
    let config = Config::default();
    let input = vec![
        (String::from("./a.sfl"), String::from("1 + 2")),
        (String::from("./b.sfl"), String::from("1 ? 2 !")),
    ];
    let mut lexer = <Lexer as Phase<_, _>>::new();
    match lexer.run(&config, &input) {
        PhaseResult::SoftErr(out, errors) => {
            assert_eq!(out.len(), 2);
            assert_eq!(out[0].0, "./a.sfl");
            assert_eq!(out[0].1.len(), 4);
            assert_eq!(out[1].0, "./b.sfl");
            assert_eq!(out[1].1.len(), 5);
            assert_eq!(errors.len(), 2);
            assert_eq!(errors[0].content.message, "Unexpected character '?'");
            assert_eq!(errors[0].source_path, "./b.sfl");
            assert_eq!(errors[1].content.message, "Unexpected character '!'");
        }
        _ => panic!("expected a soft error"),
    }
    let input = vec![(String::from("./a.sfl"), String::from("1 + 2"))];
    match lexer.run(&config, &input) {
        PhaseResult::Success(out) => assert_eq!(out.len(), 1),
        _ => panic!("expected success"),
    }
}
