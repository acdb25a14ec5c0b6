//! What the driver of the pipeline decides between two phases, and the
//! front end as one step.

use vstd::prelude::*;
use crate::config::Config;
use crate::language::ast::{Ast, AstView};
use crate::message::{append_messages, message_views, Message, MessageView};
use crate::phase::ast_builder::{build, lower_spec};
use crate::phase::lexer::{collect_diagnostics, lex_spec, token_diagnostics, Lexer};
use crate::phase::parser::{content_spec, tree_spec, Grammar, Parser, Source};
use crate::phase::phase::PhaseResult;

verus! {

/// What is handed on after a phase: its output, unless the pipeline stops.
/// It stops after a phase without output, and after a phase with errors if
/// the configuration is not resilient.
pub open spec fn handed_on<R>(config: Config, result: PhaseResult<R>) -> Option<R> {
    match result {
        PhaseResult::Success(output) => Some(output),
        PhaseResult::SoftErr(output, _) => if config.resilient {
            Some(output)
        } else {
            None
        },
        PhaseResult::Failure(_) => None,
    }
}

/// Parts the result of a phase into what is handed on to the next phase,
/// if the pipeline goes on, and the diagnostics to show.
pub fn complete_phase<R>(config: &Config, phase_result: PhaseResult<R>) -> (r: (
    Option<R>,
    Vec<Message>,
))
    ensures
        r.0 == handed_on(*config, phase_result),
        message_views(r.1@) == phase_result.errors(),
{
    match phase_result {
        PhaseResult::Success(result) => {
            let none: Vec<Message> = Vec::new();
            assert(message_views(none@) =~= Seq::<MessageView>::empty());
            (Some(result), none)
        },
        PhaseResult::SoftErr(result, errors) => {
            if !config.resilient {
                (None, errors)
            } else {
                (Some(result), errors)
            }
        },
        PhaseResult::Failure(errors) => (None, errors),
    }
}

/// What the parser reads of a source: its tokens, as one expression.
pub open spec fn expression_source(path: Seq<char>, source: Seq<char>) -> Source {
    Source { tokens: lex_spec(source, path), path, grammar: Grammar::Expression }
}

/// The expression that a source holds: its text lexed, parsed and lowered.
pub open spec fn front_end_spec(path: Seq<char>, source: Seq<char>) -> AstView {
    lower_spec(tree_spec(expression_source(path, source)))
}

/// What the front end reports for a source: the error tokens of the lexer,
/// and then what did not fit the grammar.
pub open spec fn front_end_errors(path: Seq<char>, source: Seq<char>) -> Seq<MessageView> {
    token_diagnostics(lex_spec(source, path)) + content_spec(
        expression_source(path, source),
    ).errors
}

/// The front end as one step: the expression that the source holds, and
/// the diagnostics of lexer and parser. Both are functions of the path and
/// the text alone.
pub fn front_end(path: &String, source: &String) -> (r: (Ast, Vec<Message>))
    ensures
        r.0@ == front_end_spec(path@, source@),
        message_views(r.1@) == front_end_errors(path@, source@),
{
    let mut lexer = Lexer::new((path, source));
    let tokens = lexer.lex();
    let mut errors: Vec<Message> = Vec::new();
    assert(message_views(errors@) =~= Seq::<MessageView>::empty());
    collect_diagnostics(&tokens, &mut errors);
    assert(message_views(errors@) =~= token_diagnostics(lex_spec(source@, path@)));
    let mut parser = Parser::from(path, &tokens, Grammar::Expression);
    let tree = parser.parse();
    proof {
        assert(parser.source() == expression_source(path@, source@));
        assert(message_views(parser.errors@) =~= content_spec(
            expression_source(path@, source@),
        ).errors);
    }
    append_messages(&mut errors, &parser.errors);
    (build(&tree), errors)
}

} // verus!
