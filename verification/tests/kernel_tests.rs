use kcore::boot::{primary_action, secondary_action, BootAction, BootSequencer};
use kcore::kernel::{resumes_after, Kernel, SyscallOutcome};
use kcore::runner::{exit_step, runner_step, RunnerAction};
use kcore::percpu::Cpu;
use kcore::proc::{Channel, ProcError, ProcState, WaitOutcome};
use kcore::sched::pick_next;
use kcore::vm::VmError;
use kcore::trap::{
    classify, decode_syscall, dispatch, syscall_return, Device, DeviceTable, Syscall, TrapAction,
    TrapKind,
};

fn running_count(k: &Kernel) -> usize {
    (0..k.table.capacity()).filter(|s| k.table.get(*s).state == ProcState::Running).count()
}

fn cores_agree(k: &Kernel) -> bool {
    let mut seen: Vec<usize> = Vec::new();
    for c in k.cpus.iter() {
        if let Some(s) = c.current {
            if k.table.get(s).state != ProcState::Running || seen.contains(&s) {
                return false;
            }
            seen.push(s);
        }
    }
    seen.len() == running_count(k)
}

/// A kernel with `n` Runnable processes in slots `0 .. n`.
fn with_runnable(capacity: usize, cores: usize, n: usize) -> Kernel {
    let mut k = Kernel::new(capacity, 4, cores, 16);
    assert_eq!(k.spawn_init(), Ok(0));
    assert_eq!(k.schedule(0), Some(0));
    for _ in 1..n {
        k.fork_current(0).expect("a free slot");
    }
    k.yield_current(0);
    k
}

#[test]
fn round_robin_selects_each_within_n_selections() {
    let n = 5;
    let mut k = with_runnable(8, 1, n);
    let mut picks = Vec::new();
    for _ in 0..n {
        let slot = k.schedule(0).expect("something is runnable");
        picks.push(slot);
        k.yield_current(0);
    }
    assert_eq!(picks, vec![1, 2, 3, 4, 0]);
    let mut again = Vec::new();
    for _ in 0..n {
        let slot = k.schedule(0).expect("something is runnable");
        again.push(slot);
        k.yield_current(0);
    }
    assert_eq!(again, vec![1, 2, 3, 4, 0]);
}

#[test]
fn pick_next_wraps_around() {
    let k = with_runnable(4, 1, 2);
    assert_eq!(pick_next(&k.table, 0), Some(0));
    assert_eq!(pick_next(&k.table, 1), Some(1));
    assert_eq!(pick_next(&k.table, 2), Some(0));
    assert_eq!(pick_next(&k.table, 3), Some(0));
}

#[test]
fn schedule_with_nothing_runnable_changes_nothing() {
    let mut k = Kernel::new(4, 4, 2, 16);
    assert_eq!(k.schedule(1), None);
    assert_eq!(k.cpus[1], Cpu::new(1));
    assert_eq!(pick_next(&k.table, 3), None);
}

#[test]
fn one_running_process_per_core() {
    let mut k = with_runnable(8, 3, 4);
    assert!(cores_agree(&k));
    assert_eq!(k.schedule(0), Some(1));
    assert!(cores_agree(&k));
    assert_eq!(k.schedule(1), Some(0));
    assert_eq!(k.schedule(2), Some(2));
    assert_eq!(running_count(&k), 3);
    assert!(cores_agree(&k));
    assert_eq!(k.cpus[0].current, Some(1));
    assert_eq!(k.cpus[1].current, Some(0));
    assert_eq!(k.cpus[2].current, Some(2));
    k.exit_current(2, 1);
    assert!(cores_agree(&k));
    assert_eq!(k.cpus[2].current, None);
    assert_eq!(k.schedule(2), Some(3));
    k.sleep_current(0, Channel::Token(4));
    assert!(cores_agree(&k));
    assert_eq!(running_count(&k), 2);
    assert_eq!(k.schedule(0), None);
    k.wakeup(Channel::Token(4));
    assert_eq!(k.schedule(0), Some(1));
    assert!(cores_agree(&k));
}

#[test]
fn forks_on_two_cores_return_different_pids() {
    let mut k = with_runnable(8, 2, 2);
    assert_eq!(k.schedule(0), Some(1));
    assert_eq!(k.schedule(1), Some(0));
    let a = k.fork_current(0).expect("a free slot");
    let b = k.fork_current(1).expect("a free slot");
    assert_eq!(a, 3);
    assert_eq!(b, 4);
    assert_eq!(k.table.get(2).pid, a);
    assert_eq!(k.table.get(3).pid, b);
}

#[test]
fn fork_on_a_full_table_fails() {
    let mut k = with_runnable(2, 1, 2);
    assert_eq!(k.schedule(0), Some(1));
    assert_eq!(k.fork_current(0), Err(ProcError::TableFull));
    assert!(cores_agree(&k));
}

#[test]
fn wait_on_a_core_blocks_and_then_reaps() {
    let mut k = with_runnable(4, 2, 2);
    assert_eq!(k.schedule(0), Some(1));
    assert_eq!(k.wait_current(0), Err(ProcError::NoChildren));
    assert_eq!(k.schedule(1), Some(0));
    assert_eq!(k.wait_current(1), Ok(WaitOutcome::Blocked));
    assert_eq!(k.cpus[1].current, None);
    assert_eq!(k.table.get(0).state, ProcState::Sleeping);
    k.exit_current(0, 42);
    assert_eq!(k.table.get(0).state, ProcState::Runnable);
    assert_eq!(k.schedule(1), Some(0));
    assert_eq!(k.wait_current(1), Ok(WaitOutcome::Reaped { pid: 2, status: 42 }));
    assert_eq!(k.table.get(1).state, ProcState::Unused);
    assert!(cores_agree(&k));
}

#[test]
fn timer_from_user_mode_preempts() {
    let mut k = with_runnable(4, 1, 2);
    assert_eq!(k.schedule(0), Some(1));
    let timer = 0x8000_0000_0000_0005u64;
    assert_eq!(k.handle_trap(0, timer, true), TrapAction::AckTimer { preempt: true });
    assert_eq!(k.table.get(1).state, ProcState::Runnable);
    assert_eq!(k.cpus[0].current, None);
    assert_eq!(k.schedule(0), Some(0));
    assert_eq!(k.handle_trap(0, timer, false), TrapAction::AckTimer { preempt: false });
    assert_eq!(k.table.get(0).state, ProcState::Running);
    assert_eq!(k.cpus[0].current, Some(0));
}

#[test]
fn fault_in_user_mode_kills_only_the_process() {
    let mut k = with_runnable(4, 1, 2);
    assert_eq!(k.schedule(0), Some(1));
    assert_eq!(k.handle_trap(0, 2, true), TrapAction::KillProcess { status: -1 });
    assert_eq!(k.table.get(1).state, ProcState::Zombie);
    assert_eq!(k.table.get(1).status, -1);
    assert_eq!(k.cpus[0].current, None);
    assert_eq!(k.schedule(0), Some(0));
    assert_eq!(k.handle_trap(0, 13, false), TrapAction::Halt);
    assert_eq!(k.table.get(0).state, ProcState::Running);
}

#[test]
fn classify_each_cause() {
    assert_eq!(classify(8), TrapKind::Syscall);
    assert_eq!(classify(0x8000_0000_0000_0005), TrapKind::Timer);
    assert_eq!(classify(0x8000_0000_0000_0009), TrapKind::External);
    assert_eq!(classify(2), TrapKind::Exception(2));
    assert_eq!(classify(0), TrapKind::Exception(0));
    assert_eq!(classify(15), TrapKind::Exception(15));
    assert_eq!(classify(16), TrapKind::Unknown);
    assert_eq!(classify(0x8000_0000_0000_0001), TrapKind::Unknown);
    assert_eq!(classify(0x8000_0000_0000_0000), TrapKind::Unknown);
    assert_eq!(classify(u64::MAX), TrapKind::Unknown);
}

#[test]
fn dispatch_by_mode() {
    assert_eq!(dispatch(8, true), TrapAction::RunSyscall);
    assert_eq!(dispatch(8, false), TrapAction::Halt);
    assert_eq!(dispatch(0x8000_0000_0000_0009, true), TrapAction::ServeDevice);
    assert_eq!(dispatch(0x8000_0000_0000_0009, false), TrapAction::ServeDevice);
    assert_eq!(dispatch(12, true), TrapAction::KillProcess { status: -1 });
    assert_eq!(dispatch(12, false), TrapAction::Halt);
    assert_eq!(dispatch(99, true), TrapAction::Halt);
    assert_eq!(dispatch(99, false), TrapAction::Halt);
}

#[test]
fn syscall_return_value() {
    assert_eq!(syscall_return(Some(7)), 7);
    assert_eq!(syscall_return(Some(0)), 0);
    assert_eq!(syscall_return(None), u64::MAX);
}

#[test]
fn device_handlers_by_id() {
    let mut t = DeviceTable::new(16);
    assert_eq!(t.handler(10), None);
    assert!(t.register(10, Device::Console));
    assert!(t.register(1, Device::Disk));
    assert!(!t.register(16, Device::Disk));
    assert_eq!(t.handler(10), Some(Device::Console));
    assert_eq!(t.handler(1), Some(Device::Disk));
    assert_eq!(t.handler(2), None);
    assert_eq!(t.handler(16), None);
}

#[test]
fn interrupt_off_regions_nest_and_restore() {
    let mut c = Cpu::new(3);
    c.enabled = true;
    c.push_off();
    assert!(!c.enabled);
    assert_eq!(c.depth, 1);
    c.push_off();
    assert_eq!(c.depth, 2);
    assert!(c.pop_off());
    assert!(!c.enabled);
    assert!(c.pop_off());
    assert!(c.enabled);
    assert_eq!(c.depth, 0);
    assert!(!c.pop_off());
    assert!(c.enabled);
}

#[test]
fn interrupt_off_region_keeps_interrupts_off_if_they_were() {
    let mut c = Cpu::new(0);
    assert!(!c.enabled);
    c.push_off();
    assert!(c.pop_off());
    assert!(!c.enabled);
    assert_eq!(c, Cpu::new(0));
}

#[test]
fn primary_core_boots_in_order() {
    let mut b = BootSequencer::new(0);
    let mut actions = Vec::new();
    loop {
        let a = b.next(false);
        if a == BootAction::EnterScheduler {
            break;
        }
        actions.push(a);
    }
    assert_eq!(
        actions,
        vec![
            BootAction::InitConsole,
            BootAction::InitNullDevice,
            BootAction::InitAllocator,
            BootAction::InitKernelPageTable,
            BootAction::EnablePaging,
            BootAction::InitProcessTable,
            BootAction::InstallTrapVector,
            BootAction::InitInterruptController,
            BootAction::EnableDeviceInterrupts,
            BootAction::InitBufferCache,
            BootAction::InitDisk,
            BootAction::LoadFirstProcess,
            BootAction::PublishStarted,
        ]
    );
    assert_eq!(b.next(true), BootAction::EnterScheduler);
    assert_eq!(b.step, 13);
    assert_eq!(primary_action(12, false), BootAction::PublishStarted);
}

#[test]
fn secondary_core_spins_until_started() {
    let mut b = BootSequencer::new(2);
    assert_eq!(b.next(false), BootAction::Spin);
    assert_eq!(b.next(false), BootAction::Spin);
    assert_eq!(b.step, 0);
    assert_eq!(b.next(true), BootAction::EnablePaging);
    assert_eq!(b.next(true), BootAction::InstallTrapVector);
    assert_eq!(b.next(true), BootAction::EnableDeviceInterrupts);
    assert_eq!(b.next(true), BootAction::EnterScheduler);
    assert_eq!(b.next(true), BootAction::EnterScheduler);
    assert_eq!(b.step, 3);
    assert_eq!(secondary_action(1, false), BootAction::Spin);
}

#[test]
fn decode_syscall_numbers() {
    assert_eq!(decode_syscall(1, 0), Some(Syscall::Fork));
    assert_eq!(decode_syscall(2, -3), Some(Syscall::Exit { status: -3 }));
    assert_eq!(decode_syscall(3, 0), Some(Syscall::Wait));
    assert_eq!(decode_syscall(6, 12), Some(Syscall::Kill { pid: 12 }));
    assert_eq!(decode_syscall(6, -1), Some(Syscall::Kill { pid: 0 }));
    assert_eq!(decode_syscall(11, 0), Some(Syscall::GetPid));
    assert_eq!(decode_syscall(0, 0), None);
    assert_eq!(decode_syscall(4, 0), None);
    assert_eq!(decode_syscall(u64::MAX, 0), None);
}

#[test]
fn syscalls_write_the_return_register() {
    let mut k = with_runnable(3, 1, 1);
    assert_eq!(k.schedule(0), Some(0));
    assert_eq!(k.run_syscall(0, Some(Syscall::GetPid)), SyscallOutcome::Resume);
    assert_eq!(k.table.get(0).trapframe.ret, 1);
    assert_eq!(k.run_syscall(0, None), SyscallOutcome::Resume);
    assert_eq!(k.table.get(0).trapframe.ret, u64::MAX);
    assert_eq!(k.run_syscall(0, Some(Syscall::Wait)), SyscallOutcome::Resume);
    assert_eq!(k.table.get(0).trapframe.ret, u64::MAX);
    assert_eq!(k.run_syscall(0, Some(Syscall::Fork)), SyscallOutcome::Resume);
    assert_eq!(k.table.get(0).trapframe.ret, 2);
    assert_eq!(k.table.get(1).trapframe.ret, 0);
    assert_eq!(k.run_syscall(0, Some(Syscall::Fork)), SyscallOutcome::Resume);
    assert_eq!(k.table.get(0).trapframe.ret, 3);
    assert_eq!(k.run_syscall(0, Some(Syscall::Fork)), SyscallOutcome::Resume);
    assert_eq!(k.table.get(0).trapframe.ret, u64::MAX);
    assert_eq!(k.run_syscall(0, Some(Syscall::Kill { pid: 3 })), SyscallOutcome::Resume);
    assert_eq!(k.table.get(0).trapframe.ret, 0);
    assert!(k.table.get(2).killed);
    assert_eq!(k.run_syscall(0, Some(Syscall::Kill { pid: 9 })), SyscallOutcome::Resume);
    assert_eq!(k.table.get(0).trapframe.ret, u64::MAX);
    assert_eq!(k.run_syscall(0, Some(Syscall::Wait)), SyscallOutcome::Blocked);
    assert_eq!(k.cpus[0].current, None);
    assert_eq!(k.schedule(0), Some(1));
    assert_eq!(k.run_syscall(0, Some(Syscall::Exit { status: 5 })), SyscallOutcome::Exited);
    assert_eq!(k.table.get(1).state, ProcState::Zombie);
    assert_eq!(k.table.get(0).state, ProcState::Runnable);
    assert_eq!(k.schedule(0), Some(2));
    k.yield_current(0);
    assert_eq!(k.schedule(0), Some(0));
    assert_eq!(k.run_syscall(0, Some(Syscall::Wait)), SyscallOutcome::Reaped { status: 5 });
    assert_eq!(k.table.get(0).trapframe.ret, 2);
    assert_eq!(k.table.get(1).state, ProcState::Unused);
    assert!(cores_agree(&k));
}

#[test]
fn kill_through_the_kernel() {
    let mut k = with_runnable(3, 1, 2);
    assert!(k.kill(2));
    assert!(k.table.get(1).killed);
    assert!(!k.kill(5));
}

#[test]
fn killed_process_exits_at_trap_return() {
    let mut k = with_runnable(3, 1, 2);
    assert_eq!(k.schedule(0), Some(1));
    assert!(k.trap_return(0));
    assert_eq!(k.table.get(1).state, ProcState::Running);
    assert!(k.kill(2));
    assert!(!k.trap_return(0));
    assert_eq!(k.table.get(1).state, ProcState::Zombie);
    assert_eq!(k.table.get(1).status, -1);
    assert_eq!(k.cpus[0].current, None);
    assert!(cores_agree(&k));
}

#[test]
fn kernel_stacks_are_mapped_once_for_every_slot() {
    let mut k = Kernel::new(3, 4, 1, 8);
    assert_eq!(k.map_kernel_stacks(), Err(VmError::OutOfMemory));
    for frame in [10u64, 11, 12, 13] {
        k.frames.release(frame);
    }
    assert_eq!(k.translate_kernel(6 * 4096), Err(VmError::Unmapped));
    assert_eq!(k.map_kernel_stacks(), Ok(()));
    assert_eq!(k.frames.available(), 1);
    assert_eq!(k.translate_kernel(6 * 4096 + 8), Ok(13 * 4096 + 8));
    assert_eq!(k.translate_kernel(4 * 4096), Ok(12 * 4096));
    assert_eq!(k.translate_kernel(2 * 4096), Ok(11 * 4096));
    assert_eq!(k.translate_kernel(7 * 4096), Err(VmError::Unmapped));
    assert_eq!(k.translate_kernel(5 * 4096), Err(VmError::Unmapped));
    assert_eq!(k.map_kernel_stacks(), Err(VmError::Overlap));
    assert_eq!(k.frames.available(), 1);
    let mut small = Kernel::new(3, 4, 1, 5);
    assert_eq!(small.map_kernel_stacks(), Err(VmError::OutOfRange));
    // The kernel half is the same before and after a process runs.
    assert_eq!(k.spawn_init(), Ok(0));
    assert_eq!(k.schedule(0), Some(0));
    assert_eq!(k.translate_kernel(6 * 4096 + 8), Ok(13 * 4096 + 8));
}

#[test]
fn boot_reentry_is_fatal() {
    let mut b = BootSequencer::new(0);
    assert_eq!(b.next(false), BootAction::InitConsole);
    assert_eq!(b.next(true), BootAction::Fatal);
    assert_eq!(b.step, 1);
    assert_eq!(primary_action(0, true), BootAction::Fatal);
    assert_eq!(primary_action(12, true), BootAction::Fatal);
    assert_eq!(primary_action(13, true), BootAction::EnterScheduler);
    assert_eq!(primary_action(13, false), BootAction::EnterScheduler);
}

#[test]
fn runner_runs_two_tests_in_order_then_exits() {
    let exit = RunnerAction::ExitWrite { address: 0x100000, value: 0x3333 };
    assert_eq!(runner_step(2, 0), RunnerAction::Announce { count: 2 });
    assert_eq!(runner_step(2, 1), RunnerAction::RunTest { index: 0 });
    assert_eq!(runner_step(2, 2), RunnerAction::RunTest { index: 1 });
    assert_eq!(runner_step(2, 3), exit);
    assert_eq!(runner_step(2, 4), RunnerAction::Spin);
    assert_eq!(runner_step(2, usize::MAX), RunnerAction::Spin);
}

#[test]
fn runner_with_no_test_announces_and_exits() {
    assert_eq!(runner_step(0, 0), RunnerAction::Announce { count: 0 });
    assert_eq!(runner_step(0, 1), RunnerAction::ExitWrite { address: 0x100000, value: 0x3333 });
    assert_eq!(runner_step(0, 2), RunnerAction::Spin);
}

#[test]
fn runner_calls_every_test_once() {
    let count = 17;
    let mut calls = vec![0usize; count];
    let mut writes = 0;
    for step in 0..100 {
        match runner_step(count, step) {
            RunnerAction::RunTest { index } => {
                assert_eq!(index + 1, step);
                calls[index] += 1;
            }
            RunnerAction::ExitWrite { .. } => {
                assert_eq!(step, count + 1);
                writes += 1;
            }
            RunnerAction::Announce { count: n } => assert_eq!((step, n), (0, count)),
            RunnerAction::Spin => assert!(step > count + 1),
        }
    }
    assert_eq!(calls, vec![1usize; count]);
    assert_eq!(writes, 1);
}

#[test]
fn exit_routine_stores_once_and_spins() {
    assert_eq!(exit_step(0), RunnerAction::ExitWrite { address: 0x100000, value: 0x3333 });
    assert_eq!(exit_step(1), RunnerAction::Spin);
    assert_eq!(exit_step(usize::MAX), RunnerAction::Spin);
}

#[test]
fn who_goes_on_after_a_trap() {
    assert!(resumes_after(TrapAction::RunSyscall, Some(SyscallOutcome::Resume)));
    assert!(resumes_after(TrapAction::RunSyscall, Some(SyscallOutcome::Reaped { status: 1 })));
    assert!(!resumes_after(TrapAction::RunSyscall, Some(SyscallOutcome::Blocked)));
    assert!(!resumes_after(TrapAction::RunSyscall, Some(SyscallOutcome::Exited)));
    assert!(!resumes_after(TrapAction::RunSyscall, None));
    assert!(resumes_after(TrapAction::AckTimer { preempt: false }, None));
    assert!(!resumes_after(TrapAction::AckTimer { preempt: true }, None));
    assert!(resumes_after(TrapAction::ServeDevice, None));
    assert!(!resumes_after(TrapAction::KillProcess { status: -1 }, None));
    assert!(!resumes_after(TrapAction::Halt, None));
}

#[test]
fn finish_trap_checks_for_a_kill() {
    let mut k = with_runnable(3, 1, 2);
    assert_eq!(k.schedule(0), Some(1));
    assert!(k.finish_trap(0, TrapAction::ServeDevice, None, true));
    assert!(k.kill(2));
    assert!(k.finish_trap(0, TrapAction::ServeDevice, None, false));
    assert_eq!(k.table.get(1).state, ProcState::Running);
    assert!(!k.finish_trap(0, TrapAction::ServeDevice, None, true));
    assert_eq!(k.table.get(1).state, ProcState::Zombie);
    assert_eq!(k.cpus[0].current, None);
    assert!(!k.finish_trap(0, TrapAction::AckTimer { preempt: true }, None, true));
}
