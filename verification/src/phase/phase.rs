//! What the phases have in common.

use vstd::prelude::*;
use crate::config::Config;
use crate::message::{message_views, Message, MessageView};

verus! {

/// How a phase ended.
pub enum PhaseResult<R> {
    /// The phase has its output, and nothing to report.
    Success(R),
    /// The phase has its output, and errors to report. The pipeline may go on.
    SoftErr(R, Vec<Message>),
    /// The phase has no output. The pipeline stops.
    Failure(Vec<Message>),
}

impl<R> PhaseResult<R> {
    /// The diagnostics of the phase.
    pub open spec fn errors(self) -> Seq<MessageView> {
        match self {
            PhaseResult::Success(_) => seq![],
            PhaseResult::SoftErr(_, errors) => message_views(errors@),
            PhaseResult::Failure(errors) => message_views(errors@),
        }
    }

    /// The output of the phase, if it has one.
    pub open spec fn output(self) -> Option<R> {
        match self {
            PhaseResult::Success(r) => Some(r),
            PhaseResult::SoftErr(r, _) => Some(r),
            PhaseResult::Failure(_) => None,
        }
    }
}

/// A phase of the pipeline: it is made, and then run on its input.
pub trait Phase<I, R>: Sized {
    /// Whether the phase is in the state in which `new` makes it, before
    /// its first run.
    spec fn fresh(&self) -> bool;

    /// The phase before its first run.
    fn new() -> (phase: Self)
        ensures
            phase.fresh(),
    ;

    fn run(&mut self, config: &Config, input: &I) -> PhaseResult<R>;
}

} // verus!
