//! The kernel as a whole: the process table, the cores and the free frames,
//! and the steps that a core takes on them.
//!
//! The invariant ties the cores to the table: a process is Running exactly
//! when it is the current process of a core, and of one core only.

use crate::percpu::Cpu;
use crate::proc::{
    exit_result, fork_result, first_unused, first_zombie_child, has_children, has_unused,
    has_zombie_child, reap_result, sleep_result, with_state, Channel, Proc, ProcError, ProcState,
    ProcTable, TableView, WaitOutcome, allocate_result, has_pid, is_first_unused,
    is_first_zombie_child, killed_entry, with_return,
};
use crate::sched::{any_ready, cursor_after, pick_next, picked, ready};
use crate::trap::{
    action_for, dispatch, kind_of, Syscall, TrapAction, RETURN_ERROR, STATUS_FAULT,
};
use crate::vm::{
    all_apart, apart, duplicate_result, kernel_apart, kernel_stack_page, kernel_stack_perms,
    lemma_duplicate_owns, lemma_release_owns, lemma_stacks_own, lemma_tables_apart_symmetric,
    mapped_count, mapped_frames, range_free, stacks_result, tables_apart, translation,
    FrameAllocator, PageTable, Pte, VmError,
};
use vstd::prelude::*;

verus! {

/// Whether the cores and the table agree on what runs: the current process
/// of a core is Running, every Running process is the current one of a
/// core, and no two cores have the same current process.
pub open spec fn cores_match(procs: Seq<Proc>, cpus: Seq<Cpu>) -> bool {
    &&& forall|c: int|
        0 <= c < cpus.len() && (#[trigger] cpus[c]).current is Some ==> cpus[c].current->0
            < procs.len() && procs[cpus[c].current->0 as int].state == ProcState::Running
    &&& forall|s: int|
        0 <= s < procs.len() && (#[trigger] procs[s]).state == ProcState::Running ==> exists|
            c: int,
        |
            0 <= c < cpus.len() && (#[trigger] cpus[c]).current is Some && cpus[c].current->0 == s
    &&& forall|c: int, d: int|
        0 <= c < d < cpus.len() && (#[trigger] cpus[c]).current is Some ==> cpus[c].current != (
        #[trigger] cpus[d]).current
}

/// How a syscall ended for the process that made it.
#[derive(Clone, Copy, Debug, PartialEq, Eq, Structural)]
pub enum SyscallOutcome {
    /// The result is in the return register; the process goes on.
    Resume,
    /// A child was reaped: its pid is in the return register and this is
    /// its exit status; the process goes on.
    Reaped { status: i32 },
    /// The process sleeps until a child exits, and must then wait again.
    Blocked,
    /// The process has exited.
    Exited,
}

/// Whether the process that trapped goes on after `action`, before the
/// check for a pending kill: after a syscall that left its result, after a
/// timer interrupt that does not preempt, and after a device interrupt;
/// `outcome` is that of the syscall, where one ran.
pub open spec fn resumes(action: TrapAction, outcome: Option<SyscallOutcome>) -> bool {
    match action {
        TrapAction::RunSyscall => outcome == Some(SyscallOutcome::Resume) || (outcome is Some
            && outcome->0 is Reaped),
        TrapAction::AckTimer { preempt } => !preempt,
        TrapAction::ServeDevice => true,
        TrapAction::KillProcess { .. } => false,
        TrapAction::Halt => false,
    }
}

/// Whether the process that trapped goes on after `action`, before the
/// check for a pending kill.
pub fn resumes_after(action: TrapAction, outcome: Option<SyscallOutcome>) -> (r: bool)
    ensures
        r == resumes(action, outcome),
{
    match action {
        TrapAction::RunSyscall => {
            match outcome {
                Some(SyscallOutcome::Resume) => true,
                Some(SyscallOutcome::Reaped { .. }) => true,
                _ => false,
            }
        },
        TrapAction::AckTimer { preempt } => !preempt,
        TrapAction::ServeDevice => true,
        TrapAction::KillProcess { .. } => false,
        TrapAction::Halt => false,
    }
}

/// The core `c` with another current process.
pub open spec fn with_current(c: Cpu, current: Option<usize>) -> Cpu {
    Cpu { current, ..c }
}

/// The state that the cores share.
pub struct Kernel {
    /// The processes, each with its private page table.
    pub table: ProcTable,
    pub cpus: Vec<Cpu>,
    pub frames: FrameAllocator,
    /// The one kernel page table: every address space has these mappings
    /// for the kernel's own addresses, whichever process runs.
    pub kernel_space: PageTable,
}

impl Kernel {
    /// The kernel's invariant: that of each part, the agreement of the cores
    /// with the table, and every cursor inside the table.
    pub open spec fn wf(&self) -> bool {
        &&& self.table.wf()
        &&& self.frames.wf()
        &&& self.kernel_space.wf()
        &&& self.owns()
        &&& cores_match(self.table@.procs, self.cpus@)
        &&& forall|c: int|
            0 <= c < self.cpus@.len() ==> (#[trigger] self.cpus@[c]).cursor
                < self.table@.procs.len()
    }

    /// Every frame has one owner: no frame is free and mapped, mapped by
    /// two processes, or mapped by a process and by the kernel.
    pub open spec fn owns(&self) -> bool {
        &&& all_apart(self.table.spaces(), self.frames@)
        &&& apart(self.kernel_space@, self.frames@)
        &&& kernel_apart(self.table.spaces(), self.kernel_space@)
    }

    /// Whether `core` is a core that runs a process.
    pub open spec fn busy(&self, core: usize) -> bool {
        core < self.cpus@.len() && self.cpus@[core as int].current is Some
    }

    /// The slot of the process that `core` runs.
    pub open spec fn current(&self, core: usize) -> int {
        self.cpus@[core as int].current->0 as int
    }

    /// A kernel with `capacity` unused process slots whose page tables
    /// cover `pages` pages each, `cores` idle cores, no free frame, and an
    /// empty kernel page table of `kernel_pages` pages.
    pub fn new(capacity: usize, pages: usize, cores: usize, kernel_pages: usize) -> (k: Kernel)
        requires
            capacity > 0,
        ensures
            k.wf(),
            k.kernel_space@.len() == kernel_pages,
            range_free(k.kernel_space@, 0, kernel_pages as int),
            k.table@.procs.len() == capacity,
            k.table@.next_pid == 1,
            k.cpus@.len() == cores,
            k.frames@.len() == 0,
            forall|i: int|
                0 <= i < capacity ==> (#[trigger] k.table@.procs[i]).state == ProcState::Unused,
            forall|c: int| 0 <= c < cores ==> #[trigger] k.cpus@[c] == Cpu::new_spec(c as usize),
            k.table@.init == 0,
            k.table.spaces().len() == capacity,
            forall|i: int|
                0 <= i < capacity ==> (#[trigger] k.table.spaces()[i]).len() == pages
                    && range_free(k.table.spaces()[i], 0, pages as int),
    {
        let table: ProcTable = ProcTable::new(capacity, pages);
        let mut cpus: Vec<Cpu> = Vec::new();
        let mut c: usize = 0;
        while c < cores
            invariant
                c <= cores,
                cpus@.len() == c,
                forall|i: int| 0 <= i < c ==> #[trigger] cpus@[i] == Cpu::new_spec(i as usize),
            decreases cores - c,
        {
            cpus.push(Cpu::new(c));
            c += 1;
        }
        let k = Kernel {
            table,
            cpus,
            frames: FrameAllocator::new(),
            kernel_space: PageTable::new(kernel_pages),
        };
        assert forall|i: int| 0 <= i < k.table.spaces().len() implies tables_apart(
            #[trigger] k.table.spaces()[i],
            k.kernel_space@,
        ) && apart(k.table.spaces()[i], k.frames@) by {
            assert(range_free(k.table.spaces()[i], 0, pages as int));
        }
        k
    }

    /// Creates the first process: it takes the lowest unused slot, becomes
    /// the init process and is Runnable.
    pub fn spawn_init(&mut self) -> (r: Result<usize, ProcError>)
        requires
            old(self).wf(),
            old(self).table@.next_pid < u64::MAX,
        ensures
            final(self).wf(),
            final(self).kernel_space@ == old(self).kernel_space@,
            final(self).cpus@ == old(self).cpus@,
            final(self).frames@ == old(self).frames@,
            final(self).table.spaces() == old(self).table.spaces(),
            r is Ok <==> has_unused(old(self).table@.procs),
            r is Err ==> r->Err_0 == ProcError::TableFull && final(self).table@ == old(self).table@,
            r is Ok ==> r->Ok_0 == first_unused(old(self).table@.procs) && is_first_unused(
                old(self).table@.procs,
                r->Ok_0 as int,
            ) && final(self).table@ == (TableView {
                init: r->Ok_0,
                ..with_state(
                    allocate_result(old(self).table@, r->Ok_0 as int),
                    r->Ok_0 as int,
                    ProcState::Runnable,
                )
            }),
    {
        match self.table.allocate() {
            Err(e) => Err(e),
            Ok(slot) => {
                proof {
                    old(self).table.lemma_wf();
                    crate::proc::lemma_first_unused_exists(old(self).table@.procs);
                }
                self.table.user_init(slot);
                proof {
                    self.lemma_same_running(*old(self));
                }
                Ok(slot)
            },
        }
    }

    /// One selection of the idle core `core`: the first Runnable process
    /// from its cursor on becomes Running and the core's current process,
    /// and the cursor moves past it. With nothing Runnable nothing changes.
    pub fn schedule(&mut self, core: usize) -> (r: Option<usize>)
        requires
            old(self).wf(),
            core < old(self).cpus@.len(),
            old(self).cpus@[core as int].current is None,
        ensures
            final(self).wf(),
            final(self).kernel_space@ == old(self).kernel_space@,
            final(self).frames@ == old(self).frames@,
            final(self).table.spaces() == old(self).table.spaces(),
            r is Some <==> any_ready(ready(old(self).table@.procs)),
            r is None ==> final(self).table@ == old(self).table@ && final(self).cpus@ == old(
                self).cpus@,
            r is Some ==> r->0 == picked(
                ready(old(self).table@.procs),
                old(self).cpus@[core as int].cursor as int,
            ) && final(self).table@ == with_state(
                old(self).table@,
                r->0 as int,
                ProcState::Running,
            ) && final(self).cpus@ == old(self).cpus@.update(
                core as int,
                Cpu {
                    current: r,
                    cursor: cursor_after(old(self).table@.procs.len() as int, r->0 as int) as usize,
                    ..old(self).cpus@[core as int]
                },
            ),
    {
        let cpu: Cpu = self.cpus[core];
        match pick_next(&self.table, cpu.cursor) {
            None => None,
            Some(slot) => {
                self.table.run(slot);
                let n: usize = self.table.capacity();
                let cursor: usize = if slot < n - 1 {
                    slot + 1
                } else {
                    0
                };
                self.cpus.set(
                    core,
                    Cpu {
                        id: cpu.id,
                        current: Some(slot),
                        cursor,
                        depth: cpu.depth,
                        saved: cpu.saved,
                        enabled: cpu.enabled,
                    },
                );
                proof {
                    let procs = self.table@.procs;
                    assert forall|s: int|
                        0 <= s < procs.len() && (#[trigger] procs[s]).state
                            == ProcState::Running implies exists|c: int|
                        0 <= c < self.cpus@.len() && (#[trigger] self.cpus@[c]).current is Some && self.cpus@[c].current->0 == s by {
                        if s == slot {
                            assert(self.cpus@[core as int].current->0 == s);
                        } else {
                            assert(old(self).table@.procs[s].state == ProcState::Running);
                            let c = choose|c: int|
                                0 <= c < old(self).cpus@.len() && (#[trigger] old(self).cpus@[c]).current is Some && old(self).cpus@[c].current->0 == s;
                            assert(self.cpus@[c].current->0 == s);
                        }
                    }
                }
                Some(slot)
            },
        }
    }

    fn clear_current(&mut self, core: usize)
        requires
            core < old(self).cpus@.len(),
        ensures
            final(self).table == old(self).table,
            final(self).frames == old(self).frames,
            final(self).kernel_space == old(self).kernel_space,
            final(self).cpus@ == old(self).cpus@.update(
                core as int,
                with_current(old(self).cpus@[core as int], None),
            ),
    {
        let cpu: Cpu = self.cpus[core];
        self.cpus.set(
            core,
            Cpu {
                id: cpu.id,
                current: None,
                cursor: cpu.cursor,
                depth: cpu.depth,
                saved: cpu.saved,
                enabled: cpu.enabled,
            },
        );
    }

    /// The process on `core` gives up the core: it is Runnable and the core
    /// is idle.
    pub fn yield_current(&mut self, core: usize)
        requires
            old(self).wf(),
            old(self).busy(core),
        ensures
            final(self).wf(),
            final(self).kernel_space@ == old(self).kernel_space@,
            final(self).frames@ == old(self).frames@,
            final(self).table.spaces() == old(self).table.spaces(),
            final(self).table@ == with_state(
                old(self).table@,
                old(self).current(core),
                ProcState::Runnable,
            ),
            final(self).cpus@ == old(self).cpus@.update(
                core as int,
                with_current(old(self).cpus@[core as int], None),
            ),
    {
        let slot: usize = self.cpus[core].current.unwrap();
        self.table.yield_now(slot);
        self.clear_current(core);
        proof {
            self.lemma_left_core(*old(self), core);
        }
    }

    /// The process on `core` goes to sleep on `chan` and the core is idle.
    pub fn sleep_current(&mut self, core: usize, chan: Channel)
        requires
            old(self).wf(),
            old(self).busy(core),
        ensures
            final(self).wf(),
            final(self).kernel_space@ == old(self).kernel_space@,
            final(self).frames@ == old(self).frames@,
            final(self).table.spaces() == old(self).table.spaces(),
            final(self).table@ == sleep_result(old(self).table@, old(self).current(core), chan),
            final(self).cpus@ == old(self).cpus@.update(
                core as int,
                with_current(old(self).cpus@[core as int], None),
            ),
    {
        let slot: usize = self.cpus[core].current.unwrap();
        self.table.sleep(slot, chan);
        self.clear_current(core);
        proof {
            self.lemma_left_core(*old(self), core);
        }
    }

    /// The process on `core` exits with `status` and the core is idle.
    pub fn exit_current(&mut self, core: usize, status: i32)
        requires
            old(self).wf(),
            old(self).busy(core),
        ensures
            final(self).wf(),
            final(self).kernel_space@ == old(self).kernel_space@,
            final(self).frames@ == old(self).frames@,
            final(self).table.spaces() == old(self).table.spaces(),
            final(self).table@ == exit_result(old(self).table@, old(self).current(core), status),
            final(self).cpus@ == old(self).cpus@.update(
                core as int,
                with_current(old(self).cpus@[core as int], None),
            ),
    {
        let slot: usize = self.cpus[core].current.unwrap();
        self.table.exit(slot, status);
        self.clear_current(core);
        proof {
            self.lemma_left_core(*old(self), core);
        }
    }

    /// Where the process on `core` left the Running state, no other process
    /// entered or left it, and the core became idle, the cores and the table
    /// still agree.
    proof fn lemma_left_core(&self, before: Kernel, core: usize)
        requires
            before.wf(),
            before.busy(core),
            self.table.wf(),
            self.frames.wf(),
            self.kernel_space.wf(),
            self.owns(),
            self.table@.procs.len() == before.table@.procs.len(),
            self.cpus@ == before.cpus@.update(
                core as int,
                with_current(before.cpus@[core as int], None),
            ),
            forall|s: int|
                0 <= s < self.table@.procs.len() ==> ((#[trigger] self.table@.procs[s]).state
                    == ProcState::Running <==> before.table@.procs[s].state == ProcState::Running
                    && s != before.current(core)),
        ensures
            self.wf(),
    {
        let procs = self.table@.procs;
        assert forall|s: int|
            0 <= s < procs.len() && (#[trigger] procs[s]).state
                == ProcState::Running implies exists|c: int|
            0 <= c < self.cpus@.len() && (#[trigger] self.cpus@[c]).current is Some && self.cpus@[c].current->0 == s by {
            assert(before.table@.procs[s].state == ProcState::Running);
            let c = choose|c: int|
                0 <= c < before.cpus@.len() && (#[trigger] before.cpus@[c]).current is Some && before.cpus@[c].current->0 == s;
            assert(self.cpus@[c].current->0 == s);
        }
        assert forall|c: int|
            0 <= c < self.cpus@.len() && (#[trigger] self.cpus@[c]).current is Some implies self.cpus@[c].current->0
            < procs.len() && procs[self.cpus@[c].current->0 as int].state
            == ProcState::Running by {
            assert(before.cpus@[c].current is Some);
            if c < core {
                assert(before.cpus@[c].current != before.cpus@[core as int].current);
            } else {
                assert(before.cpus@[core as int].current != before.cpus@[c].current);
            }
        }
    }

    /// Where no process entered or left the Running state and the cores
    /// are as before, the cores and the table still agree.
    proof fn lemma_same_running(&self, before: Kernel)
        requires
            before.wf(),
            self.table.wf(),
            self.frames.wf(),
            self.kernel_space.wf(),
            self.owns(),
            self.table@.procs.len() == before.table@.procs.len(),
            self.cpus@ == before.cpus@,
            forall|s: int|
                0 <= s < self.table@.procs.len() ==> ((#[trigger] self.table@.procs[s]).state
                    == ProcState::Running <==> before.table@.procs[s].state
                    == ProcState::Running),
        ensures
            self.wf(),
    {
        let procs = self.table@.procs;
        assert forall|s: int|
            0 <= s < procs.len() && (#[trigger] procs[s]).state
                == ProcState::Running implies exists|c: int|
            0 <= c < self.cpus@.len() && (#[trigger] self.cpus@[c]).current is Some && self.cpus@[c].current->0 == s by {
            assert(before.table@.procs[s].state == ProcState::Running);
        }
    }

    /// The process on `core` forks. On an error nothing changes.
    pub fn fork_current(&mut self, core: usize) -> (r: Result<u64, ProcError>)
        requires
            old(self).wf(),
            old(self).busy(core),
            old(self).table@.next_pid < u64::MAX,
        ensures
            final(self).wf(),
            final(self).kernel_space@ == old(self).kernel_space@,
            final(self).cpus@ == old(self).cpus@,
            r == Err::<u64, ProcError>(ProcError::TableFull) <==> !has_unused(
                old(self).table@.procs,
            ),
            r == Err::<u64, ProcError>(ProcError::OutOfMemory) <==> has_unused(
                old(self).table@.procs,
            ) && mapped_count(
                old(self).table.spaces()[old(self).current(core)],
                old(self).table.spaces()[old(self).current(core)].len() as int,
            ) > old(self).frames@.len(),
            r is Err ==> final(self).table@ == old(self).table@ && final(self).table.spaces()
                == old(self).table.spaces() && final(self).frames@ == old(self).frames@,
            r is Err ==> r->Err_0 == ProcError::TableFull || r->Err_0 == ProcError::OutOfMemory,
            r is Ok ==> ({
                let c = first_unused(old(self).table@.procs);
                let space = old(self).table.spaces()[old(self).current(core)];
                &&& r->Ok_0 == old(self).table@.next_pid
                &&& is_first_unused(old(self).table@.procs, c)
                &&& final(self).table@ == fork_result(
                    old(self).table@,
                    old(self).current(core),
                    c,
                )
                &&& final(self).table.spaces() == old(self).table.spaces().update(
                    c,
                    duplicate_result(space, old(self).frames@),
                )
                &&& final(self).frames@ == old(self).frames@.subrange(
                    0,
                    old(self).frames@.len() - mapped_count(space, space.len() as int),
                )
            }),
    {
        let slot: usize = self.cpus[core].current.unwrap();
        proof {
            old(self).table.lemma_wf();
        }
        let r = self.table.fork(slot, &mut self.frames);
        proof {
            if r is Ok {
                crate::proc::lemma_first_unused_exists(old(self).table@.procs);
                let sp = old(self).table.spaces();
                let c = first_unused(old(self).table@.procs);
                lemma_duplicate_owns(sp[slot as int], old(self).frames@, self.kernel_space@);
                lemma_tables_apart_symmetric(self.kernel_space@, self.table.spaces()[c]);
                assert forall|i: int| 0 <= i < sp.len() implies tables_apart(
                    #[trigger] self.table.spaces()[i],
                    self.kernel_space@,
                ) by {
                    if i != c {
                        assert(self.table.spaces()[i] == sp[i]);
                    }
                }
            }
            self.lemma_same_running(*old(self));
        }
        r
    }

    /// One step of the process on `core` waiting for a child. Where it has
    /// to sleep, the core becomes idle.
    pub fn wait_current(&mut self, core: usize) -> (r: Result<WaitOutcome, ProcError>)
        requires
            old(self).wf(),
            old(self).busy(core),
        ensures
            final(self).wf(),
            final(self).kernel_space@ == old(self).kernel_space@,
            !has_children(old(self).table@.procs, old(self).current(core)) ==> r == Err::<
                WaitOutcome,
                ProcError,
            >(ProcError::NoChildren) && final(self).table@ == old(self).table@ && final(self).cpus@
                == old(self).cpus@ && final(self).frames@ == old(self).frames@ && final(
                self).table.spaces() == old(self).table.spaces(),
            has_children(old(self).table@.procs, old(self).current(core)) && !has_zombie_child(
                old(self).table@.procs,
                old(self).current(core),
            ) ==> r == Ok::<WaitOutcome, ProcError>(WaitOutcome::Blocked) && final(self).table@
                == sleep_result(
                old(self).table@,
                old(self).current(core),
                Channel::Children(old(self).current(core) as usize),
            ) && final(self).cpus@ == old(self).cpus@.update(
                core as int,
                with_current(old(self).cpus@[core as int], None),
            ) && final(self).frames@ == old(self).frames@ && final(self).table.spaces() == old(
                self).table.spaces(),
            has_zombie_child(old(self).table@.procs, old(self).current(core)) ==> ({
                let c = first_zombie_child(old(self).table@.procs, old(self).current(core));
                &&& r == Ok::<WaitOutcome, ProcError>(
                    WaitOutcome::Reaped {
                        pid: old(self).table@.procs[c].pid,
                        status: old(self).table@.procs[c].status,
                    },
                )
                &&& is_first_zombie_child(old(self).table@.procs, old(self).current(core), c)
                &&& final(self).table@ == reap_result(old(self).table@, c)
                &&& final(self).cpus@ == old(self).cpus@
                &&& final(self).frames@ == old(self).frames@ + mapped_frames(
                    old(self).table.spaces()[c],
                    old(self).table.spaces()[c].len() as int,
                )
                &&& range_free(
                    final(self).table.spaces()[c],
                    0,
                    old(self).table.spaces()[c].len() as int,
                )
                &&& final(self).table.spaces()[c].len() == old(self).table.spaces()[c].len()
                &&& final(self).table.spaces().len() == old(self).table.spaces().len()
                &&& forall|i: int|
                    0 <= i < old(self).table.spaces().len() && i != c
                        ==> #[trigger] final(self).table.spaces()[i] == old(self).table.spaces()[i]
            }),
    {
        let slot: usize = self.cpus[core].current.unwrap();
        proof {
            old(self).table.lemma_wf();
        }
        let r = self.table.wait(slot, &mut self.frames);
        match r {
            Ok(WaitOutcome::Blocked) => {
                proof {
                    crate::proc::lemma_zombie_child_is_child(
                        old(self).table@.procs,
                        slot as int,
                    );
                }
                self.clear_current(core);
                proof {
                    self.lemma_left_core(*old(self), core);
                }
            },
            Ok(WaitOutcome::Reaped { .. }) => {
                proof {
                    crate::proc::lemma_zombie_child_is_child(
                        old(self).table@.procs,
                        slot as int,
                    );
                    if has_zombie_child(old(self).table@.procs, slot as int) {
                        crate::proc::lemma_first_zombie_child_exists(
                            old(self).table@.procs,
                            slot as int,
                        );
                    }
                    let sp = old(self).table.spaces();
                    let c = first_zombie_child(old(self).table@.procs, slot as int);
                    lemma_tables_apart_symmetric(sp[c], self.kernel_space@);
                    lemma_release_owns(sp[c], old(self).frames@, self.kernel_space@);
                    assert forall|i: int| 0 <= i < sp.len() implies tables_apart(
                        #[trigger] self.table.spaces()[i],
                        self.kernel_space@,
                    ) by {
                        if i != c {
                            assert(self.table.spaces()[i] == sp[i]);
                        }
                    }
                    self.lemma_same_running(*old(self));
                }
            },
            Err(_) => {
                proof {
                    crate::proc::lemma_zombie_child_is_child(
                        old(self).table@.procs,
                        slot as int,
                    );
                }
            },
        }
        r
    }

    /// Makes every process that sleeps on exactly `chan` Runnable.
    pub fn wakeup(&mut self, chan: Channel)
        requires
            old(self).wf(),
        ensures
            final(self).wf(),
            final(self).kernel_space@ == old(self).kernel_space@,
            final(self).cpus@ == old(self).cpus@,
            final(self).frames@ == old(self).frames@,
            final(self).table.spaces() == old(self).table.spaces(),
            final(self).table@ == crate::proc::wakeup_result(old(self).table@, chan),
    {
        proof {
            old(self).table.lemma_wf();
        }
        self.table.wakeup(chan);
        proof {
            self.lemma_same_running(*old(self));
        }
    }

    /// Handles a trap on `core` with cause register `cause`. A timer
    /// interrupt from user mode makes the current process yield, and a fault
    /// in user mode makes it exit with the fault status; anything else
    /// changes nothing here. The action is returned for the caller to
    /// carry out what is left of it.
    pub fn handle_trap(&mut self, core: usize, cause: u64, from_user: bool) -> (action:
        TrapAction)
        requires
            old(self).wf(),
            from_user ==> old(self).busy(core),
        ensures
            final(self).wf(),
            final(self).kernel_space@ == old(self).kernel_space@,
            action == action_for(kind_of(cause), from_user),
            final(self).frames@ == old(self).frames@,
            final(self).table.spaces() == old(self).table.spaces(),
            match action {
                TrapAction::AckTimer { preempt: true } => final(self).table@ == with_state(
                    old(self).table@,
                    old(self).current(core),
                    ProcState::Runnable,
                ) && final(self).cpus@ == old(self).cpus@.update(
                    core as int,
                    with_current(old(self).cpus@[core as int], None),
                ),
                TrapAction::KillProcess { status } => final(self).table@ == exit_result(
                    old(self).table@,
                    old(self).current(core),
                    status,
                ) && final(self).cpus@ == old(self).cpus@.update(
                    core as int,
                    with_current(old(self).cpus@[core as int], None),
                ),
                _ => final(self).table@ == old(self).table@ && final(self).cpus@ == old(self).cpus@,
            },
    {
        let action: TrapAction = dispatch(cause, from_user);
        match action {
            TrapAction::AckTimer { preempt } => {
                if preempt {
                    self.yield_current(core);
                }
            },
            TrapAction::KillProcess { status } => {
                self.exit_current(core, status);
            },
            _ => {},
        }
        action
    }
    /// Marks the process with `pid` as killed, as `ProcTable::kill` does.
    pub fn kill(&mut self, pid: u64) -> (found: bool)
        requires
            old(self).wf(),
        ensures
            final(self).wf(),
            final(self).kernel_space@ == old(self).kernel_space@,
            final(self).cpus@ == old(self).cpus@,
            final(self).frames@ == old(self).frames@,
            final(self).table.spaces() == old(self).table.spaces(),
            found == has_pid(old(self).table@.procs, pid),
            final(self).table@ == (TableView {
                procs: Seq::new(
                    old(self).table@.procs.len(),
                    |j: int| killed_entry(old(self).table@.procs[j], pid),
                ),
                ..old(self).table@
            }),
    {
        proof {
            old(self).table.lemma_wf();
        }
        let found: bool = self.table.kill(pid);
        proof {
            self.lemma_same_running(*old(self));
        }
        found
    }

    fn set_return(&mut self, slot: usize, value: u64)
        requires
            old(self).wf(),
            slot < old(self).table@.procs.len(),
            old(self).table@.procs[slot as int].state != ProcState::Unused,
        ensures
            final(self).wf(),
            final(self).kernel_space@ == old(self).kernel_space@,
            final(self).cpus@ == old(self).cpus@,
            final(self).frames@ == old(self).frames@,
            final(self).table.spaces() == old(self).table.spaces(),
            final(self).table@ == with_return(old(self).table@, slot as int, value),
    {
        proof {
            old(self).table.lemma_wf();
        }
        self.table.set_return(slot, value);
        proof {
            self.lemma_same_running(*old(self));
        }
    }

    /// Runs the syscall `call` of the process on `core` (`None` stands for
    /// a number that names no service) and writes the result to its return
    /// register: the child's pid after a fork, the reaped child's pid after
    /// a wait, 0 after a kill that found its process, the caller's pid for
    /// `GetPid`, and the error value where the service failed or the number
    /// is unknown. An exit and a wait that has to sleep leave the core idle.
    pub fn run_syscall(&mut self, core: usize, call: Option<Syscall>) -> (outcome:
        SyscallOutcome)
        requires
            old(self).wf(),
            old(self).busy(core),
            call == Some(Syscall::Fork) ==> old(self).table@.next_pid < u64::MAX,
        ensures
            final(self).wf(),
            final(self).kernel_space@ == old(self).kernel_space@,
            !(call == Some(Syscall::Fork) || call == Some(Syscall::Wait)) ==> final(self).frames@
                == old(self).frames@ && final(self).table.spaces() == old(self).table.spaces(),
            ({
                let slot = old(self).current(core);
                let v = old(self).table@;
                let same = old(self).cpus@;
                let idle = same.update(core as int, with_current(same[core as int], None));
                let after = final(self).table@;
                let cpus = final(self).cpus@;
                match call {
                    None => {
                        &&& outcome == SyscallOutcome::Resume
                        &&& after == with_return(v, slot, RETURN_ERROR)
                        &&& cpus == same
                    },
                    Some(Syscall::GetPid) => {
                        &&& outcome == SyscallOutcome::Resume
                        &&& after == with_return(v, slot, v.procs[slot].pid)
                        &&& cpus == same
                    },
                    Some(Syscall::Exit { status }) => {
                        &&& outcome == SyscallOutcome::Exited
                        &&& after == exit_result(v, slot, status)
                        &&& cpus == idle
                    },
                    Some(Syscall::Kill { pid }) => {
                        &&& outcome == SyscallOutcome::Resume
                        &&& after == with_return(
                            TableView {
                                procs: Seq::new(
                                    v.procs.len(),
                                    |j: int| killed_entry(v.procs[j], pid),
                                ),
                                ..v
                            },
                            slot,
                            if has_pid(v.procs, pid) {
                                0
                            } else {
                                RETURN_ERROR
                            },
                        )
                        &&& cpus == same
                    },
                    Some(Syscall::Fork) => {
                        let space = old(self).table.spaces()[slot];
                        let forked = has_unused(v.procs) && mapped_count(
                            space,
                            space.len() as int,
                        ) <= old(self).frames@.len();
                        &&& outcome == SyscallOutcome::Resume
                        &&& cpus == same
                        &&& forked ==> after == fork_result(v, slot, first_unused(v.procs))
                            && final(self).table.spaces() == old(self).table.spaces().update(
                            first_unused(v.procs),
                            duplicate_result(space, old(self).frames@),
                        ) && final(self).frames@ == old(self).frames@.subrange(
                            0,
                            old(self).frames@.len() - mapped_count(space, space.len() as int),
                        )
                        &&& !forked ==> after == with_return(v, slot, RETURN_ERROR) && final(
                            self).table.spaces() == old(self).table.spaces() && final(self).frames@
                            == old(self).frames@
                    },
                    Some(Syscall::Wait) => if !has_children(v.procs, slot) {
                        &&& outcome == SyscallOutcome::Resume
                        &&& after == with_return(v, slot, RETURN_ERROR)
                        &&& cpus == same
                        &&& final(self).table.spaces() == old(self).table.spaces()
                        &&& final(self).frames@ == old(self).frames@
                    } else if !has_zombie_child(v.procs, slot) {
                        &&& outcome == SyscallOutcome::Blocked
                        &&& after == sleep_result(v, slot, Channel::Children(slot as usize))
                        &&& cpus == idle
                        &&& final(self).table.spaces() == old(self).table.spaces()
                        &&& final(self).frames@ == old(self).frames@
                    } else {
                        let c = first_zombie_child(v.procs, slot);
                        let space = old(self).table.spaces()[c];
                        &&& outcome == (SyscallOutcome::Reaped { status: v.procs[c].status })
                        &&& after == with_return(reap_result(v, c), slot, v.procs[c].pid)
                        &&& cpus == same
                        &&& final(self).frames@ == old(self).frames@ + mapped_frames(
                            space,
                            space.len() as int,
                        )
                        &&& final(self).table.spaces().len() == old(self).table.spaces().len()
                        &&& final(self).table.spaces()[c].len() == space.len()
                        &&& range_free(final(self).table.spaces()[c], 0, space.len() as int)
                        &&& forall|i: int|
                            0 <= i < old(self).table.spaces().len() && i != c
                                ==> #[trigger] final(self).table.spaces()[i] == old(
                                self).table.spaces()[i]
                    },
                }
            }),
    {
        let slot: usize = self.cpus[core].current.unwrap();
        proof {
            old(self).table.lemma_wf();
        }
        match call {
            None => {
                self.set_return(slot, RETURN_ERROR);
                SyscallOutcome::Resume
            },
            Some(Syscall::GetPid) => {
                let pid: u64 = self.table.get(slot).pid;
                self.set_return(slot, pid);
                SyscallOutcome::Resume
            },
            Some(Syscall::Exit { status }) => {
                self.exit_current(core, status);
                SyscallOutcome::Exited
            },
            Some(Syscall::Kill { pid }) => {
                let found: bool = self.kill(pid);
                self.set_return(
                    slot,
                    if found {
                        0
                    } else {
                        RETURN_ERROR
                    },
                );
                SyscallOutcome::Resume
            },
            Some(Syscall::Fork) => {
                let forked = self.fork_current(core);
                proof {
                    let v = old(self).table@;
                    assert(fork_result(v, slot as int, first_unused(v.procs)).next_pid
                        != v.next_pid);
                }
                if forked.is_err() {
                    self.set_return(slot, RETURN_ERROR);
                }
                SyscallOutcome::Resume
            },
            Some(Syscall::Wait) => {
                proof {
                    crate::proc::lemma_zombie_child_is_child(old(self).table@.procs, slot as int);
                }
                match self.wait_current(core) {
                    Err(_) => {
                        self.set_return(slot, RETURN_ERROR);
                        SyscallOutcome::Resume
                    },
                    Ok(WaitOutcome::Blocked) => SyscallOutcome::Blocked,
                    Ok(WaitOutcome::Reaped { pid, status }) => {
                        proof {
                            crate::proc::lemma_zombie_child_is_child(
                                old(self).table@.procs,
                                slot as int,
                            );
                            crate::proc::lemma_first_zombie_child_exists(
                                old(self).table@.procs,
                                slot as int,
                            );
                        }
                        self.set_return(slot, pid);
                        SyscallOutcome::Reaped { status }
                    },
                }
            },
        }
    }
    /// The check at the return from a trap on `core`: a process that was
    /// killed meanwhile exits with the fault status instead of going back to
    /// user code. Returns whether the process goes on.
    pub fn trap_return(&mut self, core: usize) -> (resumes: bool)
        requires
            old(self).wf(),
            old(self).busy(core),
        ensures
            final(self).wf(),
            final(self).kernel_space@ == old(self).kernel_space@,
            final(self).frames@ == old(self).frames@,
            final(self).table.spaces() == old(self).table.spaces(),
            resumes == !old(self).table@.procs[old(self).current(core)].killed,
            resumes ==> final(self).table@ == old(self).table@ && final(self).cpus@ == old(
                self).cpus@,
            !resumes ==> final(self).table@ == exit_result(
                old(self).table@,
                old(self).current(core),
                STATUS_FAULT,
            ) && final(self).cpus@ == old(self).cpus@.update(
                core as int,
                with_current(old(self).cpus@[core as int], None),
            ),
    {
        let slot: usize = self.cpus[core].current.unwrap();
        proof {
            old(self).table.lemma_wf();
        }
        if self.table.get(slot).killed {
            self.exit_current(core, STATUS_FAULT);
            false
        } else {
            true
        }
    }
    /// The end of a trap on `core`, after `action` and the syscall, if one
    /// ran, were carried out. The process goes back to where it trapped if
    /// `resumes` says so and, where it trapped in user mode, it was not
    /// killed meanwhile; a killed one exits with the fault status, as
    /// `trap_return` says.
    pub fn finish_trap(
        &mut self,
        core: usize,
        action: TrapAction,
        outcome: Option<SyscallOutcome>,
        from_user: bool,
    ) -> (goes_on: bool)
        requires
            old(self).wf(),
            resumes(action, outcome) && from_user ==> old(self).busy(core),
        ensures
            final(self).wf(),
            final(self).kernel_space@ == old(self).kernel_space@,
            final(self).frames@ == old(self).frames@,
            final(self).table.spaces() == old(self).table.spaces(),
            goes_on == (resumes(action, outcome) && (from_user ==> !old(
                self).table@.procs[old(self).current(core)].killed)),
            resumes(action, outcome) && from_user && !goes_on ==> final(self).table@
                == exit_result(old(self).table@, old(self).current(core), STATUS_FAULT) && final(
                self).cpus@ == old(self).cpus@.update(
                core as int,
                with_current(old(self).cpus@[core as int], None),
            ),
            !(resumes(action, outcome) && from_user && !goes_on) ==> final(self).table@ == old(
                self).table@ && final(self).cpus@ == old(self).cpus@,
    {
        if resumes_after(action, outcome) {
            if from_user {
                self.trap_return(core)
            } else {
                true
            }
        } else {
            false
        }
    }

    /// Maps the kernel stack of every process slot into the kernel page
    /// table, as `PageTable::map_kernel_stacks` does.
    pub fn map_kernel_stacks(&mut self) -> (r: Result<(), VmError>)
        requires
            old(self).wf(),
        ensures
            final(self).wf(),
            final(self).table@ == old(self).table@,
            final(self).table.spaces() == old(self).table.spaces(),
            final(self).cpus@ == old(self).cpus@,
            r is Err ==> final(self).kernel_space@ == old(self).kernel_space@ && final(
                self).frames@ == old(self).frames@,
            r == Err::<(), VmError>(VmError::OutOfRange) <==> 2 * old(self).table@.procs.len()
                > old(self).kernel_space@.len(),
            r == Err::<(), VmError>(VmError::Overlap) <==> 2 * old(self).table@.procs.len()
                <= old(self).kernel_space@.len() && !range_free(
                old(self).kernel_space@,
                old(self).kernel_space@.len() - 2 * old(self).table@.procs.len(),
                2 * old(self).table@.procs.len() as int,
            ),
            r is Ok <==> 2 * old(self).table@.procs.len() <= old(self).kernel_space@.len()
                && range_free(
                old(self).kernel_space@,
                old(self).kernel_space@.len() - 2 * old(self).table@.procs.len(),
                2 * old(self).table@.procs.len() as int,
            ) && old(self).table@.procs.len() <= old(self).frames@.len(),
            r is Err ==> r->Err_0 == VmError::OutOfRange || r->Err_0 == VmError::Overlap
                || r->Err_0 == VmError::OutOfMemory,
            r is Ok ==> final(self).kernel_space@ == stacks_result(
                old(self).kernel_space@,
                old(self).table@.procs.len() as int,
                old(self).frames@,
            ) && final(self).frames@ == old(self).frames@.subrange(
                0,
                old(self).frames@.len() - old(self).table@.procs.len(),
            ),
    {
        let count: usize = self.table.capacity();
        proof {
            old(self).table.lemma_wf();
        }
        let r = self.kernel_space.map_kernel_stacks(count, &mut self.frames);
        proof {
            if r is Ok {
                let sp = self.table.spaces();
                assert forall|i: int| 0 <= i < sp.len() implies tables_apart(
                    #[trigger] sp[i],
                    self.kernel_space@,
                ) && apart(sp[i], self.frames@) by {
                    lemma_stacks_own(
                        old(self).kernel_space@,
                        count as int,
                        old(self).frames@,
                        sp[i],
                    );
                }
            }
            self.lemma_same_running(*old(self));
        }
        r
    }

    /// Translates a kernel virtual address. The result is the same
    /// whichever process a core runs: every address space shares the one
    /// kernel page table.
    pub fn translate_kernel(&self, va: u64) -> (r: Result<u64, VmError>)
        requires
            self.wf(),
        ensures
            match translation(self.kernel_space@, va) {
                Some(pa) => r == Ok::<u64, VmError>(pa as u64) && pa <= u64::MAX,
                None => r == Err::<u64, VmError>(VmError::Unmapped),
            },
    {
        self.kernel_space.translate(va)
    }
}

/// Where the cores and the table agree, the process that a core runs is
/// Running, no two cores run the same process, and a Running process is the
/// current process of a core.
pub proof fn law_one_running_per_core(procs: Seq<Proc>, cpus: Seq<Cpu>, c: int, d: int, s: int)
    requires
        cores_match(procs, cpus),
        0 <= c < cpus.len(),
        0 <= d < cpus.len(),
        0 <= s < procs.len(),
    ensures
        cpus[c].current is Some ==> procs[cpus[c].current->0 as int].state == ProcState::Running,
        c != d && cpus[c].current is Some ==> cpus[c].current != cpus[d].current,
        procs[s].state == ProcState::Running ==> exists|e: int|
            0 <= e < cpus.len() && (#[trigger] cpus[e]).current is Some && cpus[e].current->0 == s,
{
    if c < d {
        assert(cpus[c].current is Some ==> cpus[c].current != cpus[d].current);
    } else if d < c {
        assert(cpus[d].current is Some ==> cpus[d].current != cpus[c].current);
    }
}

/// The kernel stack of a slot is mapped once and kept. Every step of the
/// kernel leaves the kernel page table as it was, a reap too, so the stack
/// of the reaped slot stays at its page with its frame, for the next
/// process that gets the slot.
pub proof fn law_stack_kept_for_reuse(
    base: Seq<Option<Pte>>,
    count: int,
    free: Seq<u64>,
    mapped: Seq<Option<Pte>>,
    later: Seq<Option<Pte>>,
    slot: int,
)
    requires
        mapped == stacks_result(base, count, free),
        later == mapped,
        0 <= slot < count,
        2 * count <= base.len(),
    ensures
        later[kernel_stack_page(base.len() as int, slot)] == Some(
            Pte { frame: free[free.len() - 1 - slot], perms: kernel_stack_perms() },
        ),
{
}

} // verus!
