//! Ordered, fail-fast execution of a step list through a caller-supplied
//! process runner.

use vstd::prelude::*;

use crate::step::{steps_view, Step, StepOutput};

verus! {

/// The external collaborator that actually spawns one command and waits for
/// it to complete. `Ok` carries the command's captured text, `Err` the
/// diagnostic text of an erroneous completion. Implementations live outside
/// the verified library (a shell in production, a scripted mock in tests);
/// nothing is assumed about what they return.
pub trait ProcessRunner {
    fn run_step(&mut self, name: &str, command: &str) -> Result<String, String>;
}

/// A step's external command failed: the name of the failed step and the
/// diagnostic text the runner returned for it.
#[derive(Debug)]
pub struct StepFailure {
    pub step_name: String,
    pub diagnostic: String,
}

/// Runs `steps` strictly in list order, storing each captured output under
/// its step's name. Step `k + 1` starts only after step `k` completed. On the
/// first failure the run stops: no later step executes, and the call fails
/// naming the failed step; the partial output map is discarded.
pub fn run_sequence<R: ProcessRunner>(runner: &mut R, steps: &Vec<Step>) -> (r: Result<
    StepOutput,
    StepFailure,
>)
    ensures
        match r {
            Ok(outputs) => {
                &&& outputs@.len() == steps@.len()
                &&& forall|i: int|
                    0 <= i < steps@.len() ==> #[trigger] outputs@[i].0 == steps@[i].name@
            },
            Err(failure) => exists|i: int|
                0 <= i < steps@.len() && #[trigger] steps@[i].name@ == failure.step_name@,
        },
{
    let mut outputs = StepOutput::new();
    let n = steps.len();
    let mut i: usize = 0;
    while i < n
        invariant
            i <= n,
            n == steps@.len(),
            outputs@.len() == i,
            forall|j: int| 0 <= j < i ==> #[trigger] outputs@[j].0 == steps@[j].name@,
        decreases n - i,
    {
        let step = &steps[i];
        match runner.run_step(step.name.as_str(), step.command.as_str()) {
            Ok(text) => {
                outputs.push(step.name.clone(), text);
            },
            Err(diagnostic) => {
                return Err(StepFailure { step_name: step.name.clone(), diagnostic });
            },
        }
        i = i + 1;
    }
    Ok(outputs)
}

} // verus!
