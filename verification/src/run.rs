//! What running a script comes to.
use crate::util::text::{join_lines, on_lines, strings_view};
use vstd::prelude::*;

verus! {

/// A run that failed.
#[derive(Debug)]
pub struct RunError {
    /// What went wrong.
    pub error: String,
    /// The output up to then.
    pub output: String,
}

/// How a run ended.
pub enum RunOutcome {
    /// The script was not read, for these reasons.
    NotRead(Vec<String>),
    /// The script failed, for this reason.
    Failed(String),
    /// The script passed.
    Passed,
}

/// What a run whose output was captured comes to: the output, or what went
/// wrong and the output up to then. A script that was not read has none.
pub fn captured_run(outcome: RunOutcome, output: String) -> (r: Result<String, RunError>)
    ensures
        match outcome {
            RunOutcome::Passed => r matches Ok(o) && o@ == output@,
            RunOutcome::Failed(error) => r matches Err(e) && e.error@ == error@ && e.output@
                == output@,
            RunOutcome::NotRead(errors) => r matches Err(e) && e.error@ == on_lines(
                strings_view(errors@),
            ) && e.output@ == Seq::<char>::empty(),
        },
{
    match outcome {
        RunOutcome::Passed => Ok(output),
        RunOutcome::Failed(error) => Err(RunError { error, output }),
        RunOutcome::NotRead(errors) => {
            let none = String::new();
            proof {
                assert(none@ =~= Seq::<char>::empty());
            }
            Err(RunError { error: join_lines(&errors), output: none })
        },
    }
}

} // verus!
