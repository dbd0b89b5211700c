//! Classification of every entry into the kernel and the decision that
//! follows from it.

use vstd::prelude::*;

verus! {

/// The bit of the cause register that tells an interrupt from an exception.
pub const INTERRUPT_BIT: u64 = 0x8000_0000_0000_0000;

/// Cause code of an environment call from user mode.
pub const CAUSE_USER_ECALL: u64 = 8;

/// Cause code of a supervisor timer interrupt.
pub const CAUSE_TIMER: u64 = 5;

/// Cause code of a supervisor external interrupt.
pub const CAUSE_EXTERNAL: u64 = 9;

/// Highest cause code that names an architectural exception.
pub const CAUSE_LAST_EXCEPTION: u64 = 15;

/// Exit status of a process that was killed for a fault.
pub const STATUS_FAULT: i32 = -1;

/// What a syscall writes to the return register when it fails.
pub const RETURN_ERROR: u64 = 0xFFFF_FFFF_FFFF_FFFF;

/// What caused an entry into the kernel.
#[derive(Clone, Copy, Debug, PartialEq, Eq, Structural)]
pub enum TrapKind {
    Syscall,
    Timer,
    External,
    /// An exception with its cause code.
    Exception(u64),
    /// A cause that the kernel does not know.
    Unknown,
}

/// What the kernel does about a trap.
#[derive(Clone, Copy, Debug, PartialEq, Eq, Structural)]
pub enum TrapAction {
    /// Run the syscall and resume the same process.
    RunSyscall,
    /// Acknowledge the timer; then yield the core if `preempt` is set.
    AckTimer { preempt: bool },
    /// Claim the pending device, run its handler, signal completion.
    ServeDevice,
    /// Make the current process a Zombie with this status and go on.
    KillProcess { status: i32 },
    /// Report the registers and the cause, and halt the core.
    Halt,
}

/// A device that raises external interrupts.
#[derive(Clone, Copy, Debug, PartialEq, Eq, Structural)]
pub enum Device {
    Console,
    Disk,
}

/// The kind of trap that the cause register `cause` stands for.
pub open spec fn kind_of(cause: u64) -> TrapKind {
    if cause >= INTERRUPT_BIT {
        if cause - INTERRUPT_BIT == CAUSE_TIMER {
            TrapKind::Timer
        } else if cause - INTERRUPT_BIT == CAUSE_EXTERNAL {
            TrapKind::External
        } else {
            TrapKind::Unknown
        }
    } else if cause == CAUSE_USER_ECALL {
        TrapKind::Syscall
    } else if cause <= CAUSE_LAST_EXCEPTION {
        TrapKind::Exception(cause)
    } else {
        TrapKind::Unknown
    }
}

/// What the kernel does on a trap of `kind` that came from user mode
/// (`from_user`) or from kernel mode.
pub open spec fn action_for(kind: TrapKind, from_user: bool) -> TrapAction {
    match kind {
        TrapKind::Syscall => if from_user {
            TrapAction::RunSyscall
        } else {
            TrapAction::Halt
        },
        TrapKind::Timer => TrapAction::AckTimer { preempt: from_user },
        TrapKind::External => TrapAction::ServeDevice,
        TrapKind::Exception(_) => if from_user {
            TrapAction::KillProcess { status: STATUS_FAULT }
        } else {
            TrapAction::Halt
        },
        TrapKind::Unknown => TrapAction::Halt,
    }
}

/// Classifies the cause register.
pub fn classify(cause: u64) -> (kind: TrapKind)
    ensures
        kind == kind_of(cause),
{
    if cause >= INTERRUPT_BIT {
        let code: u64 = cause - INTERRUPT_BIT;
        if code == CAUSE_TIMER {
            TrapKind::Timer
        } else if code == CAUSE_EXTERNAL {
            TrapKind::External
        } else {
            TrapKind::Unknown
        }
    } else if cause == CAUSE_USER_ECALL {
        TrapKind::Syscall
    } else if cause <= CAUSE_LAST_EXCEPTION {
        TrapKind::Exception(cause)
    } else {
        TrapKind::Unknown
    }
}

/// Decides what to do on a trap with cause register `cause`.
pub fn dispatch(cause: u64, from_user: bool) -> (action: TrapAction)
    ensures
        action == action_for(kind_of(cause), from_user),
{
    match classify(cause) {
        TrapKind::Syscall => {
            if from_user {
                TrapAction::RunSyscall
            } else {
                TrapAction::Halt
            }
        },
        TrapKind::Timer => TrapAction::AckTimer { preempt: from_user },
        TrapKind::External => TrapAction::ServeDevice,
        TrapKind::Exception(_) => {
            if from_user {
                TrapAction::KillProcess { status: STATUS_FAULT }
            } else {
                TrapAction::Halt
            }
        },
        TrapKind::Unknown => TrapAction::Halt,
    }
}

/// The value for the return register after a syscall: the result, or the
/// error value.
pub fn syscall_return(result: Option<u64>) -> (ret: u64)
    ensures
        ret == match result {
            Some(v) => v,
            None => RETURN_ERROR,
        },
{
    match result {
        Some(v) => v,
        None => RETURN_ERROR,
    }
}

/// A service that a process asks of the kernel, with its argument.
#[derive(Clone, Copy, Debug, PartialEq, Eq, Structural)]
pub enum Syscall {
    Fork,
    Exit { status: i32 },
    Wait,
    Kill { pid: u64 },
    GetPid,
}

/// The numbers of the syscalls.
pub const SYS_FORK: u64 = 1;

pub const SYS_EXIT: u64 = 2;

pub const SYS_WAIT: u64 = 3;

pub const SYS_KILL: u64 = 6;

pub const SYS_GETPID: u64 = 11;

/// The service with number `number` and first argument `arg`, if the
/// number names one. No process has pid 0, which stands for a pid below 0.
pub open spec fn syscall_of(number: u64, arg: i32) -> Option<Syscall> {
    if number == SYS_FORK {
        Some(Syscall::Fork)
    } else if number == SYS_EXIT {
        Some(Syscall::Exit { status: arg })
    } else if number == SYS_WAIT {
        Some(Syscall::Wait)
    } else if number == SYS_KILL {
        Some(
            Syscall::Kill {
                pid: if arg >= 0 {
                    arg as u64
                } else {
                    0
                },
            },
        )
    } else if number == SYS_GETPID {
        Some(Syscall::GetPid)
    } else {
        None
    }
}

/// Decodes a syscall number and its first argument.
pub fn decode_syscall(number: u64, arg: i32) -> (call: Option<Syscall>)
    ensures
        call == syscall_of(number, arg),
{
    if number == SYS_FORK {
        Some(Syscall::Fork)
    } else if number == SYS_EXIT {
        Some(Syscall::Exit { status: arg })
    } else if number == SYS_WAIT {
        Some(Syscall::Wait)
    } else if number == SYS_KILL {
        let pid: u64 = if arg >= 0 {
            arg as u64
        } else {
            0
        };
        Some(Syscall::Kill { pid })
    } else if number == SYS_GETPID {
        Some(Syscall::GetPid)
    } else {
        None
    }
}

/// The handlers of external interrupts, by device id.
pub struct DeviceTable {
    handlers: Vec<Option<Device>>,
}

impl DeviceTable {
    /// The handler registered for each device id.
    pub closed spec fn view(&self) -> Seq<Option<Device>> {
        self.handlers@
    }

    /// A table for device ids below `ids`, with no handler registered.
    pub fn new(ids: usize) -> (t: DeviceTable)
        ensures
            t@.len() == ids,
            forall|i: int| 0 <= i < ids ==> (#[trigger] t@[i]) is None,
    {
        let mut handlers: Vec<Option<Device>> = Vec::new();
        let mut i: usize = 0;
        while i < ids
            invariant
                i <= ids,
                handlers@.len() == i,
                forall|j: int| 0 <= j < i ==> (#[trigger] handlers@[j]) is None,
            decreases ids - i,
        {
            handlers.push(None);
            i += 1;
        }
        DeviceTable { handlers }
    }

    /// Registers `device` as the handler of `id`. Returns `false`, and
    /// changes nothing, where the table has no such id.
    pub fn register(&mut self, id: usize, device: Device) -> (done: bool)
        ensures
            done == (id < old(self)@.len()),
            done ==> final(self)@ == old(self)@.update(id as int, Some(device)),
            !done ==> final(self)@ == old(self)@,
    {
        if id < self.handlers.len() {
            self.handlers.set(id, Some(device));
            true
        } else {
            false
        }
    }

    /// The handler of the device that the interrupt controller reported.
    pub fn handler(&self, id: usize) -> (r: Option<Device>)
        ensures
            r == if id < self@.len() {
                self@[id as int]
            } else {
                None
            },
    {
        if id < self.handlers.len() {
            self.handlers[id]
        } else {
            None
        }
    }
}

/// Whatever the cause, a trap from kernel mode never kills a process, never
/// runs a syscall and never asks for preemption.
pub proof fn law_kernel_traps(cause: u64)
    ensures
        action_for(kind_of(cause), false) == TrapAction::Halt || action_for(
            kind_of(cause),
            false,
        ) == TrapAction::ServeDevice || action_for(kind_of(cause), false) == (TrapAction::AckTimer {
            preempt: false,
        }),
{
}

/// A cause that is none of syscall, timer, device or exception halts the
/// core, from either mode.
pub proof fn law_unknown_is_fatal(cause: u64, from_user: bool)
    requires
        kind_of(cause) == TrapKind::Unknown,
    ensures
        action_for(kind_of(cause), from_user) == TrapAction::Halt,
{
}

} // verus!
