//! Outcome of the process-termination facility.
//!
//! Spawning the facility is the surrounding application's work; the
//! library classifies what came of it: a launch failure, a clean exit, or
//! a reported failure carrying the facility's diagnostic text. Sending
//! the signal to an already-gone process is expected to surface as a
//! reported failure, never as silent success.

use vstd::prelude::*;

verus! {

/// Why termination failed: the facility could not be launched at all, or
/// it ran and reported failure, with its diagnostic text.
#[derive(Debug, Clone, PartialEq, Eq)]
pub enum TerminationError {
    ExecutionError(String),
    TerminationFailed(String),
}

/// Classifies one run of the termination facility, given as plain values:
/// `Err` with the spawn-error text when it could not be launched, else
/// `Ok((exit_success, stderr_text))`.
pub fn termination_result(run: Result<(bool, String), String>) -> (r: Result<
    (),
    TerminationError,
>)
    ensures
        run matches Err(m) ==> r == Err::<(), TerminationError>(
            TerminationError::ExecutionError(m),
        ),
        run matches Ok(o) ==> ({
            &&& o.0 ==> r == Ok::<(), TerminationError>(())
            &&& !o.0 ==> r == Err::<(), TerminationError>(
                TerminationError::TerminationFailed(o.1),
            )
        }),
{
    match run {
        Err(m) => Err(TerminationError::ExecutionError(m)),
        Ok((success, stderr)) => {
            if success {
                Ok(())
            } else {
                Err(TerminationError::TerminationFailed(stderr))
            }
        },
    }
}

} // verus!
