use sfl::language::token::Position;
use sfl::message::{find_source, source_line, Content, Message, Severity};
use sfl::text::{char_of_digit, chars_of, decimal_string, digit_of, is_digit, string_of};

fn message(severity: Severity, line: usize, column: usize, begin: usize, end: usize) -> Message {
    Message {
        severity,
        position: Position { line, column, begin, end },
        content: Content {
            message: String::from("something is wrong"),
            indicator_message: Some(String::from(" here")),
            fix_hint: None,
        },
        source_path: String::from("./main.sfl"),
    }
}

#[test]
fn format_lays_out_four_lines() {
    colored::control::set_override(false);
    let m = message(Severity::Error, 1, 4, 10, 13);
    assert_eq!(
        m.format("let x =\n    foo\n"),
        "error: something is wrong\n --> main.sfl:2:4\n2 |     foo\n        ^^^ here\n"
    );
}

#[test]
fn format_of_an_unknown_name() {
    colored::control::set_override(false);
    let m = Message {
        severity: Severity::Error,
        position: Position { line: 0, column: 0, begin: 0, end: 3 },
        content: Content {
            message: String::from("'foo' is not defined here"),
            indicator_message: None,
            fix_hint: None,
        },
        source_path: String::from("./main.sfl"),
    };
    assert_eq!(
        m.format("foo"),
        "error: 'foo' is not defined here\n --> main.sfl:1:0\n1 | foo\n    ^^^\n"
    );
}

#[test]
fn format_names_the_severity() {
    colored::control::set_override(false);
    let source = "a\nb";
    assert!(message(Severity::Warning, 0, 0, 0, 1).format(source).starts_with("warning: "));
    assert!(message(Severity::Hint, 0, 0, 0, 1).format(source).starts_with("hint: "));
    assert!(message(Severity::Error, 0, 0, 0, 1).format(source).starts_with("error: "));
    assert_eq!(Severity::Error.name(), "error");
    assert_eq!(Severity::Warning.name(), "warning");
    assert_eq!(Severity::Hint.name(), "hint");
}

#[test]
fn format_with_colours_keeps_the_layout() {
    colored::control::set_override(true);
    let m = message(Severity::Error, 0, 2, 2, 3);
    let text = m.format("1 $ 2");
    let lines: Vec<&str> = text.split('\n').collect();
    assert_eq!(lines.len(), 5);
    assert!(lines[0].contains("error"));
    assert!(lines[0].contains(": something is wrong"));
    assert!(lines[1].ends_with(" main.sfl:1:2"));
    assert!(lines[2].ends_with("1 $ 2"));
    assert!(lines[3].contains("      ^ here"));
    assert_eq!(lines[4], "");
    assert!(text.contains("\u{1b}["));
    colored::control::set_override(false);
}

#[test]
fn the_pieces_of_a_diagnostic() {
    let m = message(Severity::Error, 11, 2, 5, 9);
    assert_eq!(m.header("error"), "error: something is wrong");
    assert_eq!(m.gutter(), "12 | ");
    assert_eq!(m.indicator(), "       ^^^^ here");
    assert_eq!(m.shown_path(), "main.sfl");
    assert_eq!(
        m.layout("x", "H", "A", "G", "I"),
        "H\nA main.sfl:12:2\nG\nI\n"
    );
    let backwards = message(Severity::Error, 0, 0, 9, 5);
    assert_eq!(backwards.indicator(), "     here");
    let mut bare = message(Severity::Error, 0, 1, 0, 2);
    bare.content.indicator_message = None;
    bare.source_path = String::from("lib/main.sfl");
    assert_eq!(bare.indicator(), "     ^^");
    assert_eq!(bare.shown_path(), "lib/main.sfl");
    bare.source_path = String::from(".");
    assert_eq!(bare.shown_path(), ".");
    bare.source_path = String::from("./");
    assert_eq!(bare.shown_path(), "");
}

#[test]
fn lines_of_a_source() {
    let source = "one\ntwo\r\nthree\n\nfive";
    assert_eq!(source_line(source, 0), "one");
    assert_eq!(source_line(source, 1), "two");
    assert_eq!(source_line(source, 2), "three");
    assert_eq!(source_line(source, 3), "");
    assert_eq!(source_line(source, 4), "five");
    assert_eq!(source_line(source, 5), "");
    assert_eq!(source_line(source, 500), "");
    assert_eq!(source_line("", 0), "");
    assert_eq!(source_line("a\r", 0), "a\r");
    assert_eq!(source_line("\r\n", 0), "");
    assert_eq!(source_line("x\n", 1), "");
}

#[test]
fn format_errors_joins_the_diagnostics() {
    colored::control::set_override(false);
    let sources = vec![
        (String::from("./main.sfl"), String::from("1 $ 2")),
        (String::from("./lib.sfl"), String::from("foo")),
    ];
    let mut second = message(Severity::Error, 0, 0, 0, 3);
    second.source_path = String::from("./lib.sfl");
    let errors = vec![message(Severity::Error, 0, 2, 2, 3), second];
    assert_eq!(
        Message::format_errors(&sources, &errors),
        "error: something is wrong\n --> main.sfl:1:2\n1 | 1 $ 2\n      ^ here\n\nerror: something is wrong\n --> lib.sfl:1:0\n1 | foo\n    ^^^ here\n"
    );
    assert_eq!(Message::format_errors(&sources, &Vec::new()), "");
    assert_eq!(find_source(&sources, "./lib.sfl"), "foo");
    assert_eq!(find_source(&sources, "./none.sfl"), "");
    let mut lost = message(Severity::Error, 0, 0, 0, 1);
    lost.source_path = String::from("./none.sfl");
    assert_eq!(
        Message::format_errors(&sources, &vec![lost]),
        "error: something is wrong\n --> none.sfl:1:0\n1 | \n    ^ here\n"
    );
}

#[test]
fn messages_can_be_copied() {
    let m = message(Severity::Warning, 1, 2, 3, 4);
    assert_eq!(m.clone(), m);
    assert_eq!(m.content.clone(), m.content);
}

#[test]
fn text_helpers() {
    assert_eq!(decimal_string(0), "0");
    assert_eq!(decimal_string(7), "7");
    assert_eq!(decimal_string(10), "10");
    assert_eq!(decimal_string(1234567890), "1234567890");
    assert_eq!(decimal_string(u128::MAX), "340282366920938463463374607431768211455");
    assert_eq!(chars_of("a\u{e9}\u{2200}"), vec!['a', '\u{e9}', '\u{2200}']);
    assert_eq!(string_of(&vec!['a', 'b', 'c', 'd'], 1, 3), "bc");
    assert_eq!(string_of(&vec!['a', 'b'], 1, 1), "");
    assert_eq!(char_of_digit(0), '0');
    assert_eq!(char_of_digit(9), '9');
    assert!(is_digit('0') && is_digit('9') && !is_digit('a') && !is_digit('/'));
    assert_eq!(digit_of('7'), 7);
}
