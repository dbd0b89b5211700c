//! The order in which the cores bring the kernel up.
//!
//! Core 0 runs the global steps once, in order, and then publishes that the
//! kernel has started. Every other core waits for that, runs its own steps,
//! and enters the scheduler.

use vstd::prelude::*;

verus! {

/// One step of bringing the kernel up, for the caller to carry out.
#[derive(Clone, Copy, Debug, PartialEq, Eq, Structural)]
pub enum BootAction {
    InitConsole,
    InitNullDevice,
    InitAllocator,
    InitKernelPageTable,
    EnablePaging,
    InitProcessTable,
    InstallTrapVector,
    InitInterruptController,
    EnableDeviceInterrupts,
    InitBufferCache,
    InitDisk,
    LoadFirstProcess,
    /// Set the started flag, with release ordering.
    PublishStarted,
    /// Read the started flag again, with acquire ordering.
    Spin,
    EnterScheduler,
    /// The global steps were entered again after the kernel had started:
    /// halt.
    Fatal,
}

/// The number of steps of core 0 before it enters the scheduler.
pub const PRIMARY_STEPS: usize = 13;

/// The number of steps of any other core before it enters the scheduler.
pub const SECONDARY_STEPS: usize = 3;

/// Step `step` of the global steps, which run once.
pub open spec fn global_plan(step: usize) -> BootAction {
    if step == 0 {
        BootAction::InitConsole
    } else if step == 1 {
        BootAction::InitNullDevice
    } else if step == 2 {
        BootAction::InitAllocator
    } else if step == 3 {
        BootAction::InitKernelPageTable
    } else if step == 4 {
        BootAction::EnablePaging
    } else if step == 5 {
        BootAction::InitProcessTable
    } else if step == 6 {
        BootAction::InstallTrapVector
    } else if step == 7 {
        BootAction::InitInterruptController
    } else if step == 8 {
        BootAction::EnableDeviceInterrupts
    } else if step == 9 {
        BootAction::InitBufferCache
    } else if step == 10 {
        BootAction::InitDisk
    } else if step == 11 {
        BootAction::LoadFirstProcess
    } else if step == 12 {
        BootAction::PublishStarted
    } else {
        BootAction::EnterScheduler
    }
}

/// Step `step` of core 0, which saw the flag as `started`. The flag is set
/// by the last global step only, so a core 0 that sees it set before that
/// step is done has entered the global steps a second time, which is fatal.
pub open spec fn primary_plan(step: usize, started: bool) -> BootAction {
    if step < PRIMARY_STEPS && started {
        BootAction::Fatal
    } else {
        global_plan(step)
    }
}

/// Step `step` of a core other than 0, which saw the flag as `started`.
pub open spec fn secondary_plan(step: usize, started: bool) -> BootAction {
    if !started {
        BootAction::Spin
    } else if step == 0 {
        BootAction::EnablePaging
    } else if step == 1 {
        BootAction::InstallTrapVector
    } else if step == 2 {
        BootAction::EnableDeviceInterrupts
    } else {
        BootAction::EnterScheduler
    }
}

/// What core `core` does next.
pub open spec fn plan(core: usize, step: usize, started: bool) -> BootAction {
    if core == 0 {
        primary_plan(step, started)
    } else {
        secondary_plan(step, started)
    }
}

/// How many of its steps a core has done after `action`.
pub open spec fn step_after(step: usize, action: BootAction) -> usize {
    if action == BootAction::Spin || action == BootAction::EnterScheduler || action
        == BootAction::Fatal {
        step
    } else {
        (step + 1) as usize
    }
}

/// What one core has done of its boot.
#[derive(Clone, Copy, Debug, PartialEq, Eq, Structural)]
pub struct BootSequencer {
    pub core: usize,
    pub step: usize,
}

impl BootSequencer {
    /// The boot of core `core`, with nothing done yet.
    pub fn new(core: usize) -> (b: BootSequencer)
        ensures
            b == (BootSequencer { core, step: 0 }),
    {
        BootSequencer { core, step: 0 }
    }

    /// The next action of this core, given the started flag as it read it;
    /// the action counts as done when this returns.
    pub fn next(&mut self, started: bool) -> (action: BootAction)
        ensures
            action == plan(old(self).core, old(self).step, started),
            final(self).core == old(self).core,
            final(self).step == step_after(old(self).step, action),
            old(self).step <= PRIMARY_STEPS ==> final(self).step <= PRIMARY_STEPS,
    {
        let action: BootAction = if self.core == 0 {
            primary_action(self.step, started)
        } else {
            secondary_action(self.step, started)
        };
        match action {
            BootAction::Spin => {},
            BootAction::EnterScheduler => {},
            BootAction::Fatal => {},
            _ => {
                self.step = self.step + 1;
            },
        }
        action
    }
}

/// Step `step` of core 0, which saw the flag as `started`.
pub fn primary_action(step: usize, started: bool) -> (action: BootAction)
    ensures
        action == primary_plan(step, started),
{
    if step < PRIMARY_STEPS && started {
        BootAction::Fatal
    } else if step == 0 {
        BootAction::InitConsole
    } else if step == 1 {
        BootAction::InitNullDevice
    } else if step == 2 {
        BootAction::InitAllocator
    } else if step == 3 {
        BootAction::InitKernelPageTable
    } else if step == 4 {
        BootAction::EnablePaging
    } else if step == 5 {
        BootAction::InitProcessTable
    } else if step == 6 {
        BootAction::InstallTrapVector
    } else if step == 7 {
        BootAction::InitInterruptController
    } else if step == 8 {
        BootAction::EnableDeviceInterrupts
    } else if step == 9 {
        BootAction::InitBufferCache
    } else if step == 10 {
        BootAction::InitDisk
    } else if step == 11 {
        BootAction::LoadFirstProcess
    } else if step == 12 {
        BootAction::PublishStarted
    } else {
        BootAction::EnterScheduler
    }
}

/// Step `step` of a core other than 0, which saw the flag as `started`.
pub fn secondary_action(step: usize, started: bool) -> (action: BootAction)
    ensures
        action == secondary_plan(step, started),
{
    if !started {
        BootAction::Spin
    } else if step == 0 {
        BootAction::EnablePaging
    } else if step == 1 {
        BootAction::InstallTrapVector
    } else if step == 2 {
        BootAction::EnableDeviceInterrupts
    } else {
        BootAction::EnterScheduler
    }
}

/// Until the flag is published a core other than 0 only spins, and makes no
/// progress.
pub proof fn law_secondary_waits(core: usize, step: usize)
    requires
        core != 0,
    ensures
        plan(core, step, false) == BootAction::Spin,
        step_after(step, plan(core, step, false)) == step,
{
}

/// Core 0 publishes the flag only as its last step, after every global
/// step, and no two of its steps are the same action: each runs once.
pub proof fn law_global_steps_once(a: usize, b: usize)
    requires
        a < b,
        a < PRIMARY_STEPS,
    ensures
        primary_plan(a, false) != primary_plan(b, false),
        primary_plan(a, false) == BootAction::PublishStarted <==> a == PRIMARY_STEPS - 1,
        primary_plan(a, false) != BootAction::EnterScheduler,
        primary_plan(a, false) != BootAction::Spin,
        primary_plan(a, false) != BootAction::Fatal,
{
}

/// Entering the global steps again is fatal: a core 0 that has not done all
/// of them and sees the flag set halts, and does no step; once it has done
/// them all it enters the scheduler.
pub proof fn law_reentry_is_fatal(step: usize)
    ensures
        step < PRIMARY_STEPS ==> plan(0, step, true) == BootAction::Fatal && step_after(
            step,
            plan(0, step, true),
        ) == step,
        step >= PRIMARY_STEPS ==> plan(0, step, true) == BootAction::EnterScheduler,
{
}

/// Paging is enabled only after the kernel page table exists.
pub proof fn law_paging_after_table(a: usize, b: usize)
    requires
        global_plan(a) == BootAction::InitKernelPageTable,
        global_plan(b) == BootAction::EnablePaging,
    ensures
        a < b,
{
}

} // verus!
