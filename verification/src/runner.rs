//! The order of a test run: announce the tests, run each one once in index
//! order, write the exit code to the machine's test device, and never
//! return.

use vstd::prelude::*;

verus! {

/// The address of the test device that ends the run.
pub const EXIT_ADDRESS: u64 = 0x100000;

/// The value that tells the test device to end the run.
pub const EXIT_VALUE: u32 = 0x3333;

/// One step of a test run, for the caller to carry out.
#[derive(Clone, Copy, Debug, PartialEq, Eq, Structural)]
pub enum RunnerAction {
    /// Print how many tests there are.
    Announce { count: usize },
    /// Call the test with this index.
    RunTest { index: usize },
    /// Store `value` at `address`, once.
    ExitWrite { address: u64, value: u32 },
    /// Wait for the machine to stop; nothing else is done any more.
    Spin,
}

/// Step `step` of a run of `count` tests.
pub open spec fn runner_plan(count: usize, step: usize) -> RunnerAction {
    if step == 0 {
        RunnerAction::Announce { count }
    } else if step <= count {
        RunnerAction::RunTest { index: (step - 1) as usize }
    } else if step == count + 1 {
        RunnerAction::ExitWrite { address: EXIT_ADDRESS, value: EXIT_VALUE }
    } else {
        RunnerAction::Spin
    }
}

/// Step `step` of the exit routine alone: one store, then nothing but
/// waiting.
pub open spec fn exit_plan(step: usize) -> RunnerAction {
    if step == 0 {
        RunnerAction::ExitWrite { address: EXIT_ADDRESS, value: EXIT_VALUE }
    } else {
        RunnerAction::Spin
    }
}

/// What a run of `count` tests does at step `step`.
pub fn runner_step(count: usize, step: usize) -> (action: RunnerAction)
    requires
        count < usize::MAX,
    ensures
        action == runner_plan(count, step),
{
    if step == 0 {
        RunnerAction::Announce { count }
    } else if step <= count {
        RunnerAction::RunTest { index: step - 1 }
    } else if step == count + 1 {
        RunnerAction::ExitWrite { address: EXIT_ADDRESS, value: EXIT_VALUE }
    } else {
        RunnerAction::Spin
    }
}

/// What the exit routine does at step `step`.
pub fn exit_step(step: usize) -> (action: RunnerAction)
    ensures
        action == exit_plan(step),
{
    if step == 0 {
        RunnerAction::ExitWrite { address: EXIT_ADDRESS, value: EXIT_VALUE }
    } else {
        RunnerAction::Spin
    }
}

/// A run announces the count first, then calls test `i` at step `i + 1`,
/// so every test is called once and in index order, and no step before the
/// exit write does anything else.
pub proof fn law_tests_in_order(count: usize, step: usize, i: usize)
    requires
        count < usize::MAX,
        i < count,
    ensures
        runner_plan(count, 0) == (RunnerAction::Announce { count }),
        runner_plan(count, (i + 1) as usize) == (RunnerAction::RunTest { index: i }),
        runner_plan(count, step) == (RunnerAction::RunTest { index: i }) ==> step == i + 1,
        runner_plan(count, step) == (RunnerAction::Announce { count }) ==> step == 0,
{
}

/// The exit write comes right after the last test, or right after the
/// announcement where there is no test; it is made once, with the fixed
/// address and value; and the run never does anything after it.
pub proof fn law_exit_write_once(count: usize, step: usize)
    requires
        count < usize::MAX,
    ensures
        runner_plan(count, (count + 1) as usize) == (RunnerAction::ExitWrite {
            address: 0x100000,
            value: 0x3333,
        }),
        runner_plan(count, step) is ExitWrite <==> step == count + 1,
        step > count + 1 ==> runner_plan(count, step) == RunnerAction::Spin,
        step <= count ==> !(runner_plan(count, step) is Spin),
        exit_plan(step) is ExitWrite <==> step == 0,
        exit_plan(0) == (RunnerAction::ExitWrite { address: 0x100000, value: 0x3333 }),
        step > 0 ==> exit_plan(step) == RunnerAction::Spin,
{
}

} // verus!
