use sfl::config::Config;
use sfl::language::ast::Ast;
use sfl::language::cst::{Child, Tree, TreeKind};
use sfl::language::token::{Token, TokenKind};
use sfl::message::Message;
use sfl::phase::ast_builder::{build, AstBuilder};
use sfl::phase::lexer::Lexer;
use sfl::phase::parser::{opening_of, right_binds_tighter, Grammar, Opening, Parser};
use sfl::phase::{Phase, PhaseResult};

fn lex(source: &str) -> Vec<Token> {
    let path = String::from("./main.sfl");
    let text = String::from(source);
    let mut lexer = Lexer::new((&path, &text));
    lexer.lex()
}

fn parse_with(source: &str, grammar: Grammar) -> (Tree, Vec<Message>, Vec<Token>) {
    let tokens = lex(source);
    let path = String::from("./main.sfl");
    let mut parser = Parser::from(&path, &tokens, grammar);
    let tree = parser.parse();
    (tree, parser.errors, tokens)
}

fn parse(source: &str) -> (Tree, Vec<Message>) {
    let (tree, errors, _) = parse_with(source, Grammar::Expression);
    (tree, errors)
}

fn leaves(tree: &Tree, out: &mut Vec<Token>) {
    for c in &tree.children {
        match c {
            Child::Token(t) => out.push(t.clone()),
            Child::Tree(t) => leaves(t, out),
        }
    }
}

fn count_kind(tree: &Tree, kind: TreeKind) -> usize {
    let mut n = if tree.kind == kind { 1 } else { 0 };
    for c in &tree.children {
        if let Child::Tree(t) = c {
            n += count_kind(t, kind);
        }
    }
    n
}

#[test]
fn tree_of_one_plus_two() {
    let (tree, errors) = parse("1 + 2");
    assert!(errors.is_empty());
    assert_eq!(
        tree.pretty_print(),
        "File\n  Binary\n    Literal\n      '1'\n    '+'\n    Literal\n      '2'"
    );
}

#[test]
fn operators_group_to_the_left() {
    let (tree, errors) = parse("1 + 2 - 3");
    assert!(errors.is_empty());
    assert_eq!(
        tree.pretty_print(),
        "File\n  Binary\n    Binary\n      Literal\n        '1'\n      '+'\n      Literal\n        '2'\n    '-'\n    Literal\n      '3'"
    );
}

#[test]
fn applications_group_to_the_left() {
    let (tree, errors) = parse("k 7 9");
    assert!(errors.is_empty());
    assert_eq!(
        tree.pretty_print(),
        "File\n  Application\n    Application\n      Name\n        'k'\n      Literal\n        '7'\n    Literal\n      '9'"
    );
}

#[test]
fn tree_of_let_and_abstraction() {
    let (tree, errors) = parse("let id = \\x -> x in id");
    assert!(errors.is_empty());
    assert_eq!(
        tree.pretty_print(),
        "File\n  Let\n    'let'\n    Name\n      'id'\n    '='\n    Abstraction\n      '\\'\n      Name\n        'x'\n      '->'\n      Name\n        'x'\n    'in'\n    Name\n      'id'"
    );
}

#[test]
fn tree_of_parentheses_and_application() {
    let (tree, errors) = parse("(\\x -> x + 1) 41");
    assert!(errors.is_empty());
    assert_eq!(
        tree.pretty_print(),
        "File\n  Application\n    Expr\n      '('\n      Abstraction\n        '\\'\n        Name\n          'x'\n        '->'\n        Binary\n          Name\n            'x'\n          '+'\n          Literal\n            '1'\n      ')'\n    Literal\n      '41'"
    );
}

#[test]
fn tree_of_if() {
    let (tree, errors) = parse("if true then 1 else 2");
    assert!(errors.is_empty());
    assert_eq!(
        tree.pretty_print(),
        "File\n  If\n    'if'\n    Literal\n      'true'\n    'then'\n    Literal\n      '1'\n    'else'\n    Literal\n      '2'"
    );
}

#[test]
fn tree_of_block_with_statements() {
    let (tree, errors) = parse("{ 1; 2; 3 }");
    assert!(errors.is_empty());
    assert_eq!(
        tree.pretty_print(),
        "File\n  Block\n    '{'\n    Statement\n      Literal\n        '1'\n      ';'\n    Statement\n      Literal\n        '2'\n      ';'\n    Literal\n      '3'\n    '}'"
    );
}

#[test]
fn missing_operand_is_an_error_tree() {
    let (tree, errors) = parse("1 +");
    assert_eq!(errors.len(), 1);
    assert_eq!(errors[0].content.message, "expected expression");
    assert_eq!(errors[0].content.indicator_message, Some(String::from("here")));
    assert_eq!(errors[0].position.begin, 3);
    assert_eq!(errors[0].source_path, "./main.sfl");
    assert_eq!(
        tree.pretty_print(),
        "File\n  Binary\n    Literal\n      '1'\n    '+'\n    ErrorTree\n"
    );
    assert_eq!(count_kind(&tree, TreeKind::ErrorTree), 1);
}

#[test]
fn a_token_that_begins_no_expression_goes_under_an_error_tree() {
    let (tree, errors) = parse(") 1");
    assert_eq!(errors.len(), 1);
    assert_eq!(errors[0].content.message, "expected expression");
    assert_eq!(
        tree.pretty_print(),
        "File\n  Application\n    ErrorTree\n      ')'\n    Literal\n      '1'"
    );
}

#[test]
fn expect_reports_and_takes_nothing() {
    let (tree, errors) = parse("(1");
    assert_eq!(errors.len(), 1);
    assert_eq!(errors[0].content.message, "expected ')'");
    assert_eq!(tree.pretty_print(), "File\n  Expr\n    '('\n    Literal\n      '1'");
    let (_, errors) = parse("let = 1 in 2");
    assert_eq!(errors.len(), 1);
    assert_eq!(errors[0].content.message, "expected 'name'");
    let (_, errors) = parse("\\x x");
    assert_eq!(errors.len(), 1);
    assert_eq!(errors[0].content.message, "expected '->'");
}

#[test]
fn tokens_behind_the_expression_are_reported() {
    let (tree, errors) = parse("1 ) +");
    assert_eq!(errors.len(), 2);
    assert_eq!(errors[0].content.message, "expected the end of the input");
    assert_eq!(errors[1].content.message, "expected the end of the input");
    assert_eq!(
        tree.pretty_print(),
        "File\n  Literal\n    '1'\n  ErrorTree\n    ')'\n  ErrorTree\n    '+'"
    );
}

#[test]
fn every_token_but_eof_is_a_leaf_in_order() {
    for source in [
        "1 + 2",
        "let id = \\x -> x in id",
        "(\\x -> x + 1) 41",
        "let k = \\x -> \\y -> x in k 7 9",
        "1 +",
        ") ) ( let in + + 3 $ {",
        "if if then else def",
        "",
        "{ 1; 2 ",
    ] {
        let (tree, _, tokens) = parse_with(source, Grammar::Expression);
        let mut got = Vec::new();
        leaves(&tree, &mut got);
        assert_eq!(got.len(), tokens.len() - 1);
        assert!(got[..] == tokens[..tokens.len() - 1]);
    }
    for source in [
        "def f(x: int, y: int): int { x + y }",
        "def f def g { f(1, 2) }",
        "1 + 2 def",
        "def f(x: , ) : { ; }",
        "",
    ] {
        let (tree, _, tokens) = parse_with(source, Grammar::Definitions);
        let mut got = Vec::new();
        leaves(&tree, &mut got);
        assert_eq!(got.len(), tokens.len() - 1);
        assert!(got[..] == tokens[..tokens.len() - 1]);
    }
}

#[test]
fn tree_of_a_definition() {
    let (tree, errors, _) = parse_with("def add(x: num, y: num): num { x + y }", Grammar::Definitions);
    assert!(errors.is_empty());
    assert_eq!(
        tree.pretty_print(),
        "File\n  Definition\n    'def'\n    Name\n      'add'\n    Params\n      '('\n      Param\n        Name\n          'x'\n        ':'\n        TypeExpr\n          Name\n            'num'\n        ','\n      Param\n        Name\n          'y'\n        ':'\n        TypeExpr\n          Name\n            'num'\n      ')'\n    ':'\n    TypeExpr\n      Name\n        'num'\n    '{'\n    Binary\n      Name\n        'x'\n      '+'\n      Name\n        'y'\n    '}'"
    );
}

#[test]
fn tree_of_a_call() {
    let (tree, errors, _) = parse_with("def main { f(1, 2)(3) }", Grammar::Definitions);
    assert!(errors.is_empty());
    assert_eq!(
        tree.pretty_print(),
        "File\n  Definition\n    'def'\n    Name\n      'main'\n    '{'\n    Call\n      Call\n        Name\n          'f'\n        Args\n          '('\n          Arg\n            Literal\n              '1'\n            ','\n          Arg\n            Literal\n              '2'\n          ')'\n      Args\n        '('\n        Arg\n          Literal\n            '3'\n        ')'\n    '}'"
    );
}

#[test]
fn a_stray_token_between_definitions_is_reported() {
    let (tree, errors, _) = parse_with("1 def f", Grammar::Definitions);
    assert_eq!(errors.len(), 1);
    assert_eq!(errors[0].content.message, "expected a function");
    assert_eq!(errors[0].content.indicator_message, Some(String::from("here")));
    assert_eq!(
        errors[0].content.fix_hint,
        Some(String::from("define a function using `def`"))
    );
    assert_eq!(
        tree.pretty_print(),
        "File\n  ErrorTree\n    '1'\n  Definition\n    'def'\n    Name\n      'f'"
    );
}

#[test]
fn a_definition_without_a_name_is_reported() {
    let (tree, errors, _) = parse_with("def", Grammar::Definitions);
    assert_eq!(errors.len(), 1);
    assert_eq!(errors[0].content.message, "expected 'name'");
    assert_eq!(tree.pretty_print(), "File\n  Definition\n    'def'\n    Name\n");
}

#[test]
fn no_tokens_at_all() {
    let path = String::from("./main.sfl");
    let tokens: Vec<Token> = Vec::new();
    let mut parser = Parser::from(&path, &tokens, Grammar::Expression);
    let tree = parser.parse();
    assert_eq!(tree.pretty_print(), "File\n  ErrorTree\n");
    assert_eq!(parser.errors.len(), 1);
    assert!(parser.build_tree().is_some());
    let mut parser = Parser::from(&path, &tokens, Grammar::Definitions);
    let tree = parser.parse();
    assert_eq!(tree.pretty_print(), "File\n");
    assert!(parser.errors.is_empty());
}

#[test]
fn build_tree_wants_events_that_fit() {
    let path = String::from("./main.sfl");
    let tokens = lex("1");
    let parser = Parser::from(&path, &tokens, Grammar::Expression);
    assert!(parser.build_tree().is_none());
}

#[test]
fn operator_precedence() {
    assert!(right_binds_tighter(&TokenKind::Eof, &TokenKind::Plus));
    assert!(right_binds_tighter(&TokenKind::Eof, &TokenKind::Minus));
    assert!(!right_binds_tighter(&TokenKind::Plus, &TokenKind::Plus));
    assert!(!right_binds_tighter(&TokenKind::Plus, &TokenKind::Minus));
    assert!(!right_binds_tighter(&TokenKind::Eof, &TokenKind::ParenL));
    assert!(!right_binds_tighter(&TokenKind::Eof, &TokenKind::Eof));
}

#[test]
fn what_begins_an_expression() {
    assert_eq!(opening_of(&TokenKind::LiteralInt(1)), Opening::Literal);
    assert_eq!(opening_of(&TokenKind::LiteralBool(true)), Opening::Literal);
    assert_eq!(opening_of(&TokenKind::Name(String::from("x"))), Opening::Name);
    assert_eq!(opening_of(&TokenKind::CurlyL), Opening::Block);
    assert_eq!(opening_of(&TokenKind::ParenL), Opening::Parenthesis);
    assert_eq!(opening_of(&TokenKind::Backslash), Opening::Abstraction);
    assert_eq!(opening_of(&TokenKind::KeywordLet), Opening::Let);
    assert_eq!(opening_of(&TokenKind::KeywordIf), Opening::If);
    assert_eq!(opening_of(&TokenKind::Plus), Opening::Nothing);
    assert_eq!(opening_of(&TokenKind::KeywordIn), Opening::Nothing);
    assert_eq!(opening_of(&TokenKind::Eof), Opening::Nothing);
}

#[test]
fn lowering_of_some_expressions() {
    let (tree, _) = parse("1 + 2");
    assert_eq!(build(&tree).pretty_print(), "BinaryOp\n  Literal '1'\n  '+'\n  Literal '2'");
    let (tree, _) = parse("let id = \\x -> x in id");
    assert_eq!(
        build(&tree).pretty_print(),
        "Let\n  'id'\n  Abstraction\n    'x'\n    Name 'x'\n  Name 'id'"
    );
    let (tree, _) = parse("(\\x -> x + 1) 41");
    assert_eq!(
        build(&tree).pretty_print(),
        "Application\n  Abstraction\n    'x'\n    BinaryOp\n      Name 'x'\n      '+'\n      Literal '1'\n  Literal '41'"
    );
}

#[test]
fn parentheses_leave_no_trace() {
    let (plain, _) = parse("1 + 2");
    let (wrapped, _) = parse("((1) + (2))");
    let a = build(&plain);
    let b = build(&wrapped);
    assert_eq!(a.pretty_print(), b.pretty_print());
    assert!(!matches!(b, Ast::Expr(_)));
}

#[test]
fn what_does_not_fit_lowers_to_error() {
    let (tree, _) = parse("1 +");
    assert_eq!(build(&tree).pretty_print(), "BinaryOp\n  Literal '1'\n  '+'\n  Error\n");
    let (tree, _) = parse("(1");
    assert!(matches!(build(&tree), Ast::Error));
    let (tree, _) = parse("let = 1 in 2");
    assert!(matches!(build(&tree), Ast::Error));
    let (tree, _) = parse("if true then 1 else 2");
    assert!(matches!(build(&tree), Ast::Error));
    let (tree, _) = parse("{ 1 }");
    assert!(matches!(build(&tree), Ast::Error));
    let (tree, _) = parse("1 )");
    assert!(matches!(build(&tree), Ast::Error));
    let (tree, _, _) = parse_with("def f", Grammar::Definitions);
    assert!(matches!(build(&tree), Ast::Error));
    let stray = Tree { kind: TreeKind::Literal, children: Vec::new() };
    assert!(matches!(build(&stray), Ast::Error));
}

#[test]
fn parser_and_builder_phases() {
    let config = Config::default();
    let input = vec![
        (String::from("./a.sfl"), lex("1 + 2")),
        (String::from("./b.sfl"), lex("1 +")),
    ];
    let mut parser = <Parser as Phase<_, _>>::new();
    let trees = match parser.run(&config, &input) {
        PhaseResult::SoftErr(out, errors) => {
            assert_eq!(out.len(), 2);
            assert_eq!(out[0].0, "./a.sfl");
            assert_eq!(out[1].0, "./b.sfl");
            assert_eq!(errors.len(), 1);
            assert_eq!(errors[0].content.message, "expected expression");
            assert_eq!(errors[0].source_path, "./b.sfl");
            out
        }
        _ => panic!("expected a soft error"),
    };
    let mut builder = <AstBuilder as Phase<_, _>>::new();
    match builder.run(&config, &trees) {
        PhaseResult::Success(out) => {
            assert_eq!(out.len(), 2);
            assert_eq!(out[0].1.pretty_print(), "BinaryOp\n  Literal '1'\n  '+'\n  Literal '2'");
            assert_eq!(out[1].0, "./b.sfl");
        }
        _ => panic!("expected success"),
    }
    let input = vec![(String::from("./a.sfl"), lex("1"))];
    assert!(matches!(parser.run(&config, &input), PhaseResult::Success(_)));
}

#[test]
fn many_unclosed_parentheses_are_all_reported() {
    let depth = 300;
    let source = format!("{}1", "(".repeat(depth));
    let (tree, errors, tokens) = parse_with(&source, Grammar::Expression);
    assert_eq!(errors.len(), depth);
    for e in &errors {
        assert_eq!(e.content.message, "expected ')'");
    }
    assert_eq!(count_kind(&tree, TreeKind::Expr), depth);
    let mut got = Vec::new();
    leaves(&tree, &mut got);
    assert!(got[..] == tokens[..tokens.len() - 1]);
}
