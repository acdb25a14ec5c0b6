use vstd::prelude::*;

verus! {

/// Settings shared by every phase of the pipeline.
#[derive(Debug, PartialEq, Eq, PartialOrd, Ord, Clone, Copy)]
pub struct Config {
    /// Go on with the next phase after a phase that reported recoverable errors.
    pub resilient: bool,
    /// Print diagnostics even when the run succeeds.
    pub display_errors: bool,
}

impl Default for Config {
    fn default() -> (config: Self)
        ensures
            config.resilient,
            !config.display_errors,
    {
        Self { resilient: true, display_errors: false }
    }
}

} // verus!
