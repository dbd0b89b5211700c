//! The process table and the lifecycle of a process.
//!
//! A descriptor lives in a slot of a table of fixed capacity. Its state moves
//! `Unused -> Used -> Runnable -> Running -> {Runnable, Sleeping, Zombie}`,
//! `Sleeping -> Runnable`, and `Zombie -> Unused` when the parent reaps it.

use crate::vm::{
    all_apart, apart, duplicate_result, frames_distinct, frames_valid, in_range,
    lemma_duplicate_owns, lemma_grow_owns, lemma_map_owns, lemma_release_owns, lemma_shrink_owns,
    lemma_tables_apart_symmetric, map_result, mapped_count, mapped_frames, pages_for,
    paired_frames, range_free, resize_outcome, spaces_apart, stack_distinct, tables_apart,
    translation, FrameAllocator, PageTable, Perms, Pte, VmError,
};
use vstd::prelude::*;

verus! {

/// Where a descriptor is in its life.
#[derive(Clone, Copy, Debug, PartialEq, Eq, Structural)]
pub enum ProcState {
    Unused,
    Used,
    Runnable,
    Running,
    Sleeping,
    Zombie,
}

/// What a sleeping process waits for. Sleepers are matched by equality.
#[derive(Clone, Copy, Debug, PartialEq, Eq, Structural)]
pub enum Channel {
    /// A child of the process in this slot has exited.
    Children(usize),
    /// Any other rendezvous point.
    Token(u64),
}

/// A weak reference to a parent: it resolves only while the slot still has
/// the generation that it had when the reference was made.
#[derive(Clone, Copy, Debug, PartialEq, Eq, Structural)]
pub struct ParentRef {
    pub slot: usize,
    pub generation: u64,
}

/// The user-visible registers saved at kernel entry.
#[derive(Clone, Copy, Debug, PartialEq, Eq, Structural)]
pub struct Trapframe {
    pub pc: u64,
    pub sp: u64,
    pub ret: u64,
}

/// A process descriptor. The exit status counts only in a Zombie, the
/// channel only in a sleeper.
#[derive(Clone, Copy, Debug, PartialEq, Eq, Structural)]
pub struct Proc {
    pub pid: u64,
    pub state: ProcState,
    pub parent: Option<ParentRef>,
    pub generation: u64,
    pub chan: Option<Channel>,
    pub status: i32,
    pub killed: bool,
    pub trapframe: Trapframe,
}

/// Why a step of the process table failed.
#[derive(Clone, Copy, Debug, PartialEq, Eq, Structural)]
pub enum ProcError {
    TableFull,
    OutOfMemory,
    NoChildren,
}

/// How one step of a wait ended.
#[derive(Clone, Copy, Debug, PartialEq, Eq, Structural)]
pub enum WaitOutcome {
    /// A zombie child was reaped.
    Reaped { pid: u64, status: i32 },
    /// No child has exited yet: the caller now sleeps on its own children.
    Blocked,
}

/// The table as a mathematical value.
pub struct TableView {
    pub procs: Seq<Proc>,
    pub next_pid: u64,
    pub init: usize,
}

/// The generation of a slot after its descriptor was reaped.
pub open spec fn next_generation(g: u64) -> u64 {
    if g < u64::MAX {
        (g + 1) as u64
    } else {
        0
    }
}

/// The descriptor of a slot that holds no process.
pub open spec fn vacant(generation: u64) -> Proc {
    Proc {
        pid: 0,
        state: ProcState::Unused,
        parent: None,
        generation,
        chan: None,
        status: 0,
        killed: false,
        trapframe: Trapframe { pc: 0, sp: 0, ret: 0 },
    }
}

/// Whether `p` is a child, living or zombie, of the process in `slot`.
pub open spec fn is_child(p: Proc, procs: Seq<Proc>, slot: int) -> bool {
    &&& p.state != ProcState::Unused
    &&& 0 <= slot < procs.len()
    &&& p.parent == Some(ParentRef { slot: slot as usize, generation: procs[slot].generation })
}

/// Whether the process in `slot` has a child, living or zombie.
pub open spec fn has_children(procs: Seq<Proc>, slot: int) -> bool {
    exists|j: int| 0 <= j < procs.len() && is_child(#[trigger] procs[j], procs, slot)
}

/// Whether some slot is unused.
pub open spec fn has_unused(procs: Seq<Proc>) -> bool {
    exists|c: int| 0 <= c < procs.len() && (#[trigger] procs[c]).state == ProcState::Unused
}

/// Whether `c` is the lowest unused slot.
pub open spec fn is_first_unused(procs: Seq<Proc>, c: int) -> bool {
    &&& 0 <= c < procs.len()
    &&& procs[c].state == ProcState::Unused
    &&& forall|j: int| 0 <= j < c ==> (#[trigger] procs[j]).state != ProcState::Unused
}

/// The lowest unused slot.
pub open spec fn first_unused(procs: Seq<Proc>) -> int {
    choose|c: int| is_first_unused(procs, c)
}

/// Whether `p` is a child of the process in `slot` that has exited.
pub open spec fn is_zombie_child(p: Proc, procs: Seq<Proc>, slot: int) -> bool {
    is_child(p, procs, slot) && p.state == ProcState::Zombie
}

/// Whether the process in `slot` has a child that has exited.
pub open spec fn has_zombie_child(procs: Seq<Proc>, slot: int) -> bool {
    exists|j: int| 0 <= j < procs.len() && is_zombie_child(#[trigger] procs[j], procs, slot)
}

/// Whether `c` is the lowest slot that holds a zombie child of `slot`.
pub open spec fn is_first_zombie_child(procs: Seq<Proc>, slot: int, c: int) -> bool {
    &&& 0 <= c < procs.len()
    &&& is_zombie_child(procs[c], procs, slot)
    &&& forall|j: int| 0 <= j < c ==> !is_zombie_child(#[trigger] procs[j], procs, slot)
}

/// The lowest slot that holds a zombie child of `slot`.
pub open spec fn first_zombie_child(procs: Seq<Proc>, slot: int) -> int {
    choose|c: int| is_first_zombie_child(procs, slot, c)
}

/// The invariant of the table: the init slot exists, live pids are below
/// the next pid and differ from each other, and a sleeper has a channel.
pub open spec fn table_wf(v: TableView) -> bool {
    &&& v.init < v.procs.len() <= usize::MAX
    &&& 1 <= v.next_pid
    &&& forall|i: int|
        0 <= i < v.procs.len() && (#[trigger] v.procs[i]).state != ProcState::Unused ==> 1
            <= v.procs[i].pid < v.next_pid
    &&& forall|i: int, j: int|
        0 <= i < j < v.procs.len() && (#[trigger] v.procs[i]).state != ProcState::Unused && (
        #[trigger] v.procs[j]).state != ProcState::Unused ==> v.procs[i].pid != v.procs[j].pid
    &&& forall|i: int|
        0 <= i < v.procs.len() && (#[trigger] v.procs[i]).state == ProcState::Sleeping
            ==> v.procs[i].chan is Some
}

/// The table after the unused slot `c` was given to a new process.
pub open spec fn allocate_result(v: TableView, c: int) -> TableView {
    TableView {
        procs: v.procs.update(
            c,
            Proc { pid: v.next_pid, state: ProcState::Used, ..vacant(v.procs[c].generation) },
        ),
        next_pid: (v.next_pid + 1) as u64,
        init: v.init,
    }
}

/// The table after the process in `parent` forked into the unused slot `c`:
/// the child is Runnable with the parent's registers and return value 0, and
/// the parent's return value is the child's pid.
pub open spec fn fork_result(v: TableView, parent: int, c: int) -> TableView {
    let p = v.procs[parent];
    let child = Proc {
        pid: v.next_pid,
        state: ProcState::Runnable,
        parent: Some(ParentRef { slot: parent as usize, generation: p.generation }),
        trapframe: Trapframe { ret: 0, ..p.trapframe },
        ..vacant(v.procs[c].generation)
    };
    let caller = Proc { trapframe: Trapframe { ret: v.next_pid, ..p.trapframe }, ..p };
    TableView {
        procs: v.procs.update(c, child).update(parent, caller),
        next_pid: (v.next_pid + 1) as u64,
        init: v.init,
    }
}

/// When a lowest unused slot exists, `first_unused` is that slot.
pub proof fn lemma_first_unused(procs: Seq<Proc>, c: int)
    requires
        is_first_unused(procs, c),
    ensures
        first_unused(procs) == c,
        has_unused(procs),
{
    let d = first_unused(procs);
    assert(is_first_unused(procs, d));
    if d < c {
        assert(procs[d].state != ProcState::Unused);
    }
    if c < d {
        assert(procs[c].state != ProcState::Unused);
    }
}

/// The descriptor `p` after a wakeup on `chan`: a sleeper on that channel
/// becomes Runnable, anything else stays as it is.
pub open spec fn woken(p: Proc, chan: Channel) -> Proc {
    if p.state == ProcState::Sleeping && p.chan == Some(chan) {
        Proc { state: ProcState::Runnable, chan: None, ..p }
    } else {
        p
    }
}

/// The table after a wakeup on `chan`.
pub open spec fn wakeup_result(v: TableView, chan: Channel) -> TableView {
    TableView { procs: Seq::new(v.procs.len(), |j: int| woken(v.procs[j], chan)), ..v }
}

/// The descriptor in slot `j` after the process in `slot` exited with
/// `status`: the caller is a Zombie that holds the status; its children now
/// belong to the init process; a process that slept waiting for a child of
/// the caller's parent is Runnable.
pub open spec fn exit_entry(v: TableView, slot: int, status: i32, j: int) -> Proc {
    let p = v.procs[j];
    if j == slot {
        Proc { state: ProcState::Zombie, status, chan: None, ..p }
    } else {
        let q = if is_child(p, v.procs, slot) {
            Proc {
                parent: Some(
                    ParentRef { slot: v.init, generation: v.procs[v.init as int].generation },
                ),
                ..p
            }
        } else {
            p
        };
        match v.procs[slot].parent {
            Some(r) => woken(q, Channel::Children(r.slot)),
            None => q,
        }
    }
}

/// The table after the process in `slot` exited with `status`.
pub open spec fn exit_result(v: TableView, slot: int, status: i32) -> TableView {
    TableView { procs: Seq::new(v.procs.len(), |j: int| exit_entry(v, slot, status, j)), ..v }
}

/// The table after the zombie in slot `c` was reaped: the slot is unused and
/// of the next generation, so that no reference to the zombie resolves.
pub open spec fn reap_result(v: TableView, c: int) -> TableView {
    TableView { procs: v.procs.update(c, vacant(next_generation(v.procs[c].generation))), ..v }
}

/// The table after the process in `slot` went to sleep on `chan`.
pub open spec fn sleep_result(v: TableView, slot: int, chan: Channel) -> TableView {
    TableView {
        procs: v.procs.update(
            slot,
            Proc { state: ProcState::Sleeping, chan: Some(chan), ..v.procs[slot] },
        ),
        ..v
    }
}

/// The table after the process in `slot` took the state `state`.
pub open spec fn with_state(v: TableView, slot: int, state: ProcState) -> TableView {
    TableView { procs: v.procs.update(slot, Proc { state, ..v.procs[slot] }), ..v }
}

/// The table after `value` was written to the return register of the
/// process in `slot`.
pub open spec fn with_return(v: TableView, slot: int, value: u64) -> TableView {
    TableView {
        procs: v.procs.update(
            slot,
            Proc { trapframe: Trapframe { ret: value, ..v.procs[slot].trapframe }, ..v.procs[slot] },
        ),
        ..v
    }
}

/// The descriptor `p` after a kill of `pid`.
pub open spec fn killed_entry(p: Proc, pid: u64) -> Proc {
    if p.state != ProcState::Unused && p.pid == pid {
        if p.state == ProcState::Sleeping {
            Proc { killed: true, state: ProcState::Runnable, chan: None, ..p }
        } else {
            Proc { killed: true, ..p }
        }
    } else {
        p
    }
}

/// Whether a live process has the pid `pid`.
pub open spec fn has_pid(procs: Seq<Proc>, pid: u64) -> bool {
    exists|j: int|
        0 <= j < procs.len() && (#[trigger] procs[j]).state != ProcState::Unused && procs[j].pid
            == pid
}

/// Where a slot is unused, there is a lowest one.
pub proof fn lemma_first_unused_exists(procs: Seq<Proc>)
    requires
        has_unused(procs),
    ensures
        is_first_unused(procs, first_unused(procs)),
{
    let c = choose|c: int| 0 <= c < procs.len() && (#[trigger] procs[c]).state == ProcState::Unused;
    lemma_lowest_unused(procs, c);
}

proof fn lemma_lowest_unused(procs: Seq<Proc>, c: int)
    requires
        0 <= c < procs.len(),
        procs[c].state == ProcState::Unused,
    ensures
        exists|d: int| is_first_unused(procs, d),
    decreases c,
{
    if forall|j: int| 0 <= j < c ==> (#[trigger] procs[j]).state != ProcState::Unused {
        assert(is_first_unused(procs, c));
    } else {
        let j = choose|j: int| 0 <= j < c && (#[trigger] procs[j]).state == ProcState::Unused;
        lemma_lowest_unused(procs, j);
    }
}

/// Where a slot has a zombie child, there is a lowest one.
pub proof fn lemma_first_zombie_child_exists(procs: Seq<Proc>, slot: int)
    requires
        has_zombie_child(procs, slot),
    ensures
        is_first_zombie_child(procs, slot, first_zombie_child(procs, slot)),
{
    let c = choose|c: int| 0 <= c < procs.len() && is_zombie_child(#[trigger] procs[c], procs, slot);
    lemma_lowest_zombie_child(procs, slot, c);
}

proof fn lemma_lowest_zombie_child(procs: Seq<Proc>, slot: int, c: int)
    requires
        0 <= c < procs.len(),
        is_zombie_child(procs[c], procs, slot),
    ensures
        exists|d: int| is_first_zombie_child(procs, slot, d),
    decreases c,
{
    if forall|j: int| 0 <= j < c ==> !is_zombie_child(#[trigger] procs[j], procs, slot) {
        assert(is_first_zombie_child(procs, slot, c));
    } else {
        let j = choose|j: int| 0 <= j < c && is_zombie_child(#[trigger] procs[j], procs, slot);
        lemma_lowest_zombie_child(procs, slot, j);
    }
}

/// A zombie child is a child.
pub proof fn lemma_zombie_child_is_child(procs: Seq<Proc>, slot: int)
    ensures
        has_zombie_child(procs, slot) ==> has_children(procs, slot),
{
    if has_zombie_child(procs, slot) {
        let c = choose|c: int| 0 <= c < procs.len() && is_zombie_child(#[trigger] procs[c], procs, slot);
        assert(is_child(procs[c], procs, slot));
    }
}

/// When a lowest zombie child exists, `first_zombie_child` is that slot.
pub proof fn lemma_first_zombie_child(procs: Seq<Proc>, slot: int, c: int)
    requires
        is_first_zombie_child(procs, slot, c),
    ensures
        first_zombie_child(procs, slot) == c,
        has_zombie_child(procs, slot),
        has_children(procs, slot),
{
    let d = first_zombie_child(procs, slot);
    assert(is_first_zombie_child(procs, slot, d));
    if d < c {
        assert(!is_zombie_child(procs[d], procs, slot));
    }
    if c < d {
        assert(!is_zombie_child(procs[c], procs, slot));
    }
    assert(is_child(procs[c], procs, slot));
}

/// A table of process descriptors of fixed capacity, each with a page table
/// of its own.
pub struct ProcTable {
    procs: Vec<Proc>,
    spaces: Vec<PageTable>,
    next_pid: u64,
    init: usize,
}

impl ProcTable {
    /// The descriptors, the next pid and the init slot.
    pub closed spec fn view(&self) -> TableView {
        TableView { procs: self.procs@, next_pid: self.next_pid, init: self.init }
    }

    /// The page table of each slot.
    pub closed spec fn spaces(&self) -> Seq<Seq<Option<Pte>>> {
        Seq::new(self.spaces@.len(), |i: int| self.spaces@[i]@)
    }

    /// The table's invariant, with that of the page tables: each slot has a
    /// well-formed page table, which is empty while the slot is unused, and
    /// no frame is mapped by the page tables of two slots.
    pub closed spec fn wf(&self) -> bool {
        &&& table_wf(self@)
        &&& spaces_apart(self.spaces())
        &&& self.spaces@.len() == self.procs@.len()
        &&& forall|i: int| 0 <= i < self.spaces@.len() ==> (#[trigger] self.spaces@[i]).wf()
        &&& forall|i: int|
            0 <= i < self.procs@.len() && (#[trigger] self.procs@[i]).state == ProcState::Unused
                ==> range_free(self.spaces@[i]@, 0, self.spaces@[i]@.len() as int)
    }

    /// What `wf` says of the descriptors.
    pub proof fn lemma_wf(&self)
        requires
            self.wf(),
        ensures
            table_wf(self@),
            self.spaces().len() == self@.procs.len(),
            spaces_apart(self.spaces()),
            forall|i: int|
                0 <= i < self.spaces().len() ==> frames_distinct(#[trigger] self.spaces()[i]),
    {
        assert forall|i: int| 0 <= i < self.spaces().len() implies frames_distinct(
            #[trigger] self.spaces()[i],
        ) by {
            assert(self.spaces@[i].wf());
        }
    }

    /// A table of `capacity` unused slots whose page tables cover `pages`
    /// virtual pages each. Slot 0 is reserved for the first process.
    pub fn new(capacity: usize, pages: usize) -> (t: ProcTable)
        requires
            capacity > 0,
        ensures
            t.wf(),
            t@.procs.len() == capacity,
            t@.next_pid == 1,
            t@.init == 0,
            forall|i: int| 0 <= i < capacity ==> #[trigger] t@.procs[i] == vacant(0),
            t.spaces().len() == capacity,
            forall|i: int|
                0 <= i < capacity ==> (#[trigger] t.spaces()[i]).len() == pages && range_free(
                    t.spaces()[i],
                    0,
                    pages as int,
                ),
    {
        let mut procs: Vec<Proc> = Vec::new();
        let mut spaces: Vec<PageTable> = Vec::new();
        let mut i: usize = 0;
        while i < capacity
            invariant
                i <= capacity,
                procs@.len() == i,
                spaces@.len() == i,
                forall|j: int| 0 <= j < i ==> #[trigger] procs@[j] == vacant(0),
                forall|j: int|
                    0 <= j < i ==> (#[trigger] spaces@[j]).wf() && spaces@[j]@.len() == pages
                        && range_free(spaces@[j]@, 0, pages as int),
            decreases capacity - i,
        {
            procs.push(
                Proc {
                    pid: 0,
                    state: ProcState::Unused,
                    parent: None,
                    generation: 0,
                    chan: None,
                    status: 0,
                    killed: false,
                    trapframe: Trapframe { pc: 0, sp: 0, ret: 0 },
                },
            );
            spaces.push(PageTable::new(pages));
            i += 1;
        }
        let t = ProcTable { procs, spaces, next_pid: 1, init: 0 };
        assert forall|i: int, j: int|
            0 <= i < t.spaces().len() && 0 <= j < t.spaces().len() && i != j implies tables_apart(
            #[trigger] t.spaces()[i],
            #[trigger] t.spaces()[j],
        ) by {
            assert(range_free(t.spaces()[i], 0, pages as int));
        }
        t
    }

    /// The number of slots.
    pub fn capacity(&self) -> (n: usize)
        ensures
            n == self@.procs.len(),
    {
        self.procs.len()
    }

    /// The pid that the next new process gets.
    pub fn next_pid(&self) -> (pid: u64)
        ensures
            pid == self@.next_pid,
    {
        self.next_pid
    }

    /// The slot of the init process.
    pub fn init(&self) -> (slot: usize)
        ensures
            slot == self@.init,
    {
        self.init
    }

    /// The descriptor in `slot`.
    pub fn get(&self, slot: usize) -> (p: Proc)
        requires
            slot < self@.procs.len(),
        ensures
            p == self@.procs[slot as int],
    {
        self.procs[slot]
    }

    /// Maps pages into the page table of the live process in `slot`, as
    /// `PageTable::map_pages` does.
    pub fn map_pages(&mut self, slot: usize, vpn: usize, frames: &Vec<u64>, perms: Perms) -> (r:
        Result<(), VmError>)
        requires
            old(self).wf(),
            slot < old(self)@.procs.len(),
            old(self)@.procs[slot as int].state != ProcState::Unused,
            stack_distinct(frames@),
            all_apart(old(self).spaces(), frames@),
        ensures
            final(self).wf(),
            final(self)@ == old(self)@,
            r is Ok <==> in_range(
                old(self).spaces()[slot as int],
                vpn as int,
                frames@.len() as int,
            ) && frames_valid(frames@) && range_free(
                old(self).spaces()[slot as int],
                vpn as int,
                frames@.len() as int,
            ),
            r is Ok ==> final(self).spaces() == old(self).spaces().update(
                slot as int,
                map_result(old(self).spaces()[slot as int], vpn as int, frames@, perms),
            ),
            r is Err ==> final(self).spaces() == old(self).spaces(),
            r == Err::<(), VmError>(VmError::OutOfRange) <==> !(in_range(
                old(self).spaces()[slot as int],
                vpn as int,
                frames@.len() as int,
            ) && frames_valid(frames@)),
            r is Err ==> r->Err_0 == VmError::OutOfRange || r->Err_0 == VmError::Overlap,
    {
        assert(apart(self.spaces()[slot as int], frames@));
        let r = self.spaces[slot].map_pages(vpn, frames, perms);
        assert(self.spaces() =~= if r is Ok {
            old(self).spaces().update(
                slot as int,
                map_result(old(self).spaces()[slot as int], vpn as int, frames@, perms),
            )
        } else {
            old(self).spaces()
        });
        proof {
            let sp = old(self).spaces();
            if r is Ok {
                assert forall|j: int| 0 <= j < sp.len() && j != slot implies tables_apart(
                    #[trigger] sp[j],
                    self.spaces()[slot as int],
                ) && tables_apart(self.spaces()[slot as int], sp[j]) by {
                    lemma_map_owns(sp[slot as int], vpn as int, frames@, perms, sp[j]);
                    lemma_tables_apart_symmetric(sp[j], self.spaces()[slot as int]);
                }
            }
        }
        r
    }

    /// Resizes the address space of `size` bytes of the live process in
    /// `slot` by `delta` bytes, as `PageTable::resize` does.
    pub fn resize(
        &mut self,
        slot: usize,
        size: u64,
        delta: i64,
        perms: Perms,
        frames: &mut FrameAllocator,
    ) -> (r: Result<u64, VmError>)
        requires
            old(self).wf(),
            old(frames).wf(),
            slot < old(self)@.procs.len(),
            old(self)@.procs[slot as int].state != ProcState::Unused,
            all_apart(old(self).spaces(), old(frames)@),
        ensures
            final(self).wf(),
            final(frames).wf(),
            all_apart(final(self).spaces(), final(frames)@),
            final(self)@ == old(self)@,
            final(self).spaces() == old(self).spaces().update(
                slot as int,
                final(self).spaces()[slot as int],
            ),
            (r, final(self).spaces()[slot as int], final(frames)@) == resize_outcome(
                old(self).spaces()[slot as int],
                size,
                delta,
                old(frames)@,
                perms,
            ),
    {
        assert(apart(self.spaces()[slot as int], frames@));
        let r = self.spaces[slot].resize(size, delta, perms, frames);
        assert(self.spaces() =~= old(self).spaces().update(
            slot as int,
            self.spaces()[slot as int],
        ));
        proof {
            let sp = old(self).spaces();
            let t = sp[slot as int];
            let free0 = old(frames)@;
            assert forall|j: int| 0 <= j < sp.len() && j != slot implies tables_apart(
                #[trigger] sp[j],
                self.spaces()[slot as int],
            ) && tables_apart(self.spaces()[slot as int], sp[j]) && apart(sp[j], frames@) by {
                if r is Ok && delta >= 0 {
                    let first = pages_for(size as int);
                    let n = pages_for(size + delta) - first;
                    lemma_grow_owns(t, first, n, free0, perms, sp[j]);
                } else if r is Ok {
                    let first = pages_for(size + delta);
                    let n = pages_for(size as int) - first;
                    lemma_shrink_owns(t, first, n, free0, sp[j]);
                }
                lemma_tables_apart_symmetric(sp[j], self.spaces()[slot as int]);
            }
            assert(apart(self.spaces()[slot as int], frames@));
        }
        r
    }

    /// What an eager copy from the process in `from` to the one in `to` has
    /// to copy, as `PageTable::copy_pairs` says.
    pub fn copy_pairs(&self, from: usize, to: usize) -> (pairs: Vec<(u64, u64)>)
        requires
            from < self@.procs.len(),
            to < self@.procs.len(),
            self.spaces().len() == self@.procs.len(),
            self.spaces()[from as int].len() == self.spaces()[to as int].len(),
        ensures
            pairs@ == paired_frames(
                self.spaces()[from as int],
                self.spaces()[to as int],
                self.spaces()[from as int].len() as int,
            ),
    {
        self.spaces[from].copy_pairs(&self.spaces[to])
    }

    /// The slot of the live process with pid `pid`, if there is one; the
    /// lowest such slot.
    pub fn slot_of(&self, pid: u64) -> (r: Option<usize>)
        ensures
            r is Some <==> has_pid(self@.procs, pid),
            r is Some ==> r->0 < self@.procs.len() && self@.procs[r->0 as int].state
                != ProcState::Unused && self@.procs[r->0 as int].pid == pid && forall|j: int|
                0 <= j < r->0 ==> !((#[trigger] self@.procs[j]).state != ProcState::Unused
                    && self@.procs[j].pid == pid),
    {
        let mut i: usize = 0;
        while i < self.procs.len()
            invariant
                i <= self.procs@.len(),
                forall|j: int|
                    0 <= j < i ==> !((#[trigger] self.procs@[j]).state != ProcState::Unused
                        && self.procs@[j].pid == pid),
            decreases self.procs@.len() - i,
        {
            if self.procs[i].state != ProcState::Unused && self.procs[i].pid == pid {
                return Some(i);
            }
            i += 1;
        }
        None
    }

    /// Translates a virtual byte address of the process in `slot`.
    pub fn translate(&self, slot: usize, va: u64) -> (r: Result<u64, VmError>)
        requires
            self.wf(),
            slot < self@.procs.len(),
        ensures
            match translation(self.spaces()[slot as int], va) {
                Some(pa) => r == Ok::<u64, VmError>(pa as u64) && pa <= u64::MAX,
                None => r == Err::<u64, VmError>(VmError::Unmapped),
            },
    {
        self.spaces[slot].translate(va)
    }

    /// The lowest unused slot, if there is one.
    pub fn find_unused(&self) -> (r: Option<usize>)
        ensures
            r is Some <==> has_unused(self@.procs),
            r is Some ==> r->0 == first_unused(self@.procs) && is_first_unused(
                self@.procs,
                r->0 as int,
            ),
    {
        let mut i: usize = 0;
        while i < self.procs.len()
            invariant
                i <= self.procs@.len(),
                forall|j: int| 0 <= j < i ==> (#[trigger] self.procs@[j]).state != ProcState::Unused,
            decreases self.procs@.len() - i,
        {
            if self.procs[i].state == ProcState::Unused {
                proof {
                    lemma_first_unused(self@.procs, i as int);
                }
                return Some(i);
            }
            i += 1;
        }
        None
    }

    /// Gives the lowest unused slot to a new process with the next pid, in
    /// state Used, and returns the slot.
    pub fn allocate(&mut self) -> (r: Result<usize, ProcError>)
        requires
            old(self).wf(),
            old(self)@.next_pid < u64::MAX,
        ensures
            final(self).wf(),
            final(self).spaces() == old(self).spaces(),
            r is Ok <==> has_unused(old(self)@.procs),
            r is Err ==> r->Err_0 == ProcError::TableFull && final(self)@ == old(self)@,
            r is Ok ==> r->Ok_0 == first_unused(old(self)@.procs) && is_first_unused(
                old(self)@.procs,
                r->Ok_0 as int,
            ) && final(self)@ == allocate_result(old(self)@, r->Ok_0 as int),
    {
        match self.find_unused() {
            None => Err(ProcError::TableFull),
            Some(c) => {
                let generation: u64 = self.procs[c].generation;
                self.procs.set(
                    c,
                    Proc {
                        pid: self.next_pid,
                        state: ProcState::Used,
                        parent: None,
                        generation,
                        chan: None,
                        status: 0,
                        killed: false,
                        trapframe: Trapframe { pc: 0, sp: 0, ret: 0 },
                    },
                );
                self.next_pid = self.next_pid + 1;
                assert(self.spaces() == old(self).spaces());
                Ok(c)
            },
        }
    }

    /// Duplicates the running process in `parent` into the lowest unused
    /// slot and returns the child's pid. On an error nothing changes.
    pub fn fork(&mut self, parent: usize, frames: &mut FrameAllocator) -> (r: Result<
        u64,
        ProcError,
    >)
        requires
            old(self).wf(),
            old(frames).wf(),
            old(self)@.next_pid < u64::MAX,
            parent < old(self)@.procs.len(),
            old(self)@.procs[parent as int].state == ProcState::Running,
            all_apart(old(self).spaces(), old(frames)@),
        ensures
            final(self).wf(),
            final(frames).wf(),
            all_apart(final(self).spaces(), final(frames)@),
            r == Err::<u64, ProcError>(ProcError::TableFull) <==> !has_unused(old(self)@.procs),
            r == Err::<u64, ProcError>(ProcError::OutOfMemory) <==> has_unused(old(self)@.procs)
                && mapped_count(
                old(self).spaces()[parent as int],
                old(self).spaces()[parent as int].len() as int,
            ) > old(frames)@.len(),
            r is Err ==> final(self)@ == old(self)@ && final(self).spaces() == old(self).spaces()
                && final(frames)@ == old(frames)@,
            r is Err ==> r->Err_0 == ProcError::TableFull || r->Err_0 == ProcError::OutOfMemory,
            r is Ok ==> ({
                let c = first_unused(old(self)@.procs);
                let space = old(self).spaces()[parent as int];
                &&& r->Ok_0 == old(self)@.next_pid
                &&& is_first_unused(old(self)@.procs, c)
                &&& final(self)@ == fork_result(old(self)@, parent as int, c)
                &&& final(self).spaces() == old(self).spaces().update(
                    c,
                    duplicate_result(space, old(frames)@),
                )
                &&& final(frames)@ == old(frames)@.subrange(
                    0,
                    old(frames)@.len() - mapped_count(space, space.len() as int),
                )
            }),
    {
        let c: usize = match self.find_unused() {
            None => {
                return Err(ProcError::TableFull);
            },
            Some(c) => c,
        };
        let space: PageTable = match self.spaces[parent].duplicate(frames) {
            Err(_) => {
                return Err(ProcError::OutOfMemory);
            },
            Ok(space) => space,
        };
        let pid: u64 = self.next_pid;
        let p: Proc = self.procs[parent];
        let generation: u64 = self.procs[c].generation;
        self.procs.set(
            c,
            Proc {
                pid,
                state: ProcState::Runnable,
                parent: Some(ParentRef { slot: parent, generation: p.generation }),
                generation,
                chan: None,
                status: 0,
                killed: false,
                trapframe: Trapframe { pc: p.trapframe.pc, sp: p.trapframe.sp, ret: 0 },
            },
        );
        self.procs.set(
            parent,
            Proc {
                pid: p.pid,
                state: p.state,
                parent: p.parent,
                generation: p.generation,
                chan: p.chan,
                status: p.status,
                killed: p.killed,
                trapframe: Trapframe { pc: p.trapframe.pc, sp: p.trapframe.sp, ret: pid },
            },
        );
        self.spaces.set(c, space);
        self.next_pid = pid + 1;
        assert(self@.procs =~= fork_result(old(self)@, parent as int, c as int).procs);
        assert(self.spaces() =~= old(self).spaces().update(
            c as int,
            duplicate_result(old(self).spaces()[parent as int], old(frames)@),
        ));
        proof {
            let sp = old(self).spaces();
            let copy = self.spaces()[c as int];
            assert forall|j: int| 0 <= j < sp.len() implies tables_apart(#[trigger] sp[j], copy)
                && tables_apart(copy, sp[j]) && apart(sp[j], frames@) by {
                lemma_duplicate_owns(sp[parent as int], old(frames)@, sp[j]);
                lemma_tables_apart_symmetric(sp[j], copy);
            }
        }
        Ok(pid)
    }
    /// Makes the Used process in `slot` the init process and Runnable.
    pub fn user_init(&mut self, slot: usize)
        requires
            old(self).wf(),
            slot < old(self)@.procs.len(),
            old(self)@.procs[slot as int].state == ProcState::Used,
        ensures
            final(self).wf(),
            final(self).spaces() == old(self).spaces(),
            final(self)@ == (TableView {
                init: slot,
                ..with_state(old(self)@, slot as int, ProcState::Runnable)
            }),
    {
        self.set_state(slot, ProcState::Runnable);
        self.init = slot;
    }

    fn set_state(&mut self, slot: usize, state: ProcState)
        requires
            old(self).wf(),
            slot < old(self)@.procs.len(),
            old(self)@.procs[slot as int].state != ProcState::Unused,
            state != ProcState::Unused,
            state != ProcState::Sleeping,
        ensures
            final(self).wf(),
            final(self).spaces() == old(self).spaces(),
            final(self)@ == with_state(old(self)@, slot as int, state),
    {
        let p: Proc = self.procs[slot];
        self.procs.set(
            slot,
            Proc {
                pid: p.pid,
                state,
                parent: p.parent,
                generation: p.generation,
                chan: p.chan,
                status: p.status,
                killed: p.killed,
                trapframe: p.trapframe,
            },
        );
        assert(self.spaces() == old(self).spaces());
    }

    /// Writes `value` to the return register of the live process in `slot`.
    pub fn set_return(&mut self, slot: usize, value: u64)
        requires
            old(self).wf(),
            slot < old(self)@.procs.len(),
            old(self)@.procs[slot as int].state != ProcState::Unused,
        ensures
            final(self).wf(),
            final(self).spaces() == old(self).spaces(),
            final(self)@ == with_return(old(self)@, slot as int, value),
    {
        let p: Proc = self.procs[slot];
        self.procs.set(
            slot,
            Proc {
                pid: p.pid,
                state: p.state,
                parent: p.parent,
                generation: p.generation,
                chan: p.chan,
                status: p.status,
                killed: p.killed,
                trapframe: Trapframe { pc: p.trapframe.pc, sp: p.trapframe.sp, ret: value },
            },
        );
        assert(self.spaces() == old(self).spaces());
    }

    /// The scheduler's step: the Runnable process in `slot` is now Running.
    pub fn run(&mut self, slot: usize)
        requires
            old(self).wf(),
            slot < old(self)@.procs.len(),
            old(self)@.procs[slot as int].state == ProcState::Runnable,
        ensures
            final(self).wf(),
            final(self).spaces() == old(self).spaces(),
            final(self)@ == with_state(old(self)@, slot as int, ProcState::Running),
    {
        self.set_state(slot, ProcState::Running);
    }

    /// The Running process in `slot` gives up its core and is Runnable.
    pub fn yield_now(&mut self, slot: usize)
        requires
            old(self).wf(),
            slot < old(self)@.procs.len(),
            old(self)@.procs[slot as int].state == ProcState::Running,
        ensures
            final(self).wf(),
            final(self).spaces() == old(self).spaces(),
            final(self)@ == with_state(old(self)@, slot as int, ProcState::Runnable),
    {
        self.set_state(slot, ProcState::Runnable);
    }

    /// The Running process in `slot` sleeps on `chan`.
    pub fn sleep(&mut self, slot: usize, chan: Channel)
        requires
            old(self).wf(),
            slot < old(self)@.procs.len(),
            old(self)@.procs[slot as int].state == ProcState::Running,
        ensures
            final(self).wf(),
            final(self).spaces() == old(self).spaces(),
            final(self)@ == sleep_result(old(self)@, slot as int, chan),
    {
        let p: Proc = self.procs[slot];
        self.procs.set(
            slot,
            Proc {
                pid: p.pid,
                state: ProcState::Sleeping,
                parent: p.parent,
                generation: p.generation,
                chan: Some(chan),
                status: p.status,
                killed: p.killed,
                trapframe: p.trapframe,
            },
        );
        assert(self.spaces() == old(self).spaces());
    }

    /// Makes every process that sleeps on exactly `chan` Runnable.
    pub fn wakeup(&mut self, chan: Channel)
        requires
            old(self).wf(),
        ensures
            final(self).wf(),
            final(self).spaces() == old(self).spaces(),
            final(self)@ == wakeup_result(old(self)@, chan),
    {
        let n: usize = self.procs.len();
        let mut j: usize = 0;
        while j < n
            invariant
                j <= n,
                n == self.procs@.len(),
                n == old(self).procs@.len(),
                self.spaces == old(self).spaces,
                self.next_pid == old(self).next_pid,
                self.init == old(self).init,
                forall|k: int| 0 <= k < j ==> #[trigger] self.procs@[k] == woken(old(self).procs@[k], chan),
                forall|k: int| j <= k < n ==> #[trigger] self.procs@[k] == old(self).procs@[k],
            decreases n - j,
        {
            let p: Proc = self.procs[j];
            if p.state == ProcState::Sleeping && p.chan == Some(chan) {
                self.procs.set(
                    j,
                    Proc {
                        pid: p.pid,
                        state: ProcState::Runnable,
                        parent: p.parent,
                        generation: p.generation,
                        chan: None,
                        status: p.status,
                        killed: p.killed,
                        trapframe: p.trapframe,
                    },
                );
            }
            j += 1;
        }
        assert(self@.procs =~= wakeup_result(old(self)@, chan).procs);
        assert(self.spaces() == old(self).spaces());
    }

    /// Marks the process with `pid` as killed; a sleeper is made Runnable so
    /// that it sees the flag at its next return from a trap. Returns whether
    /// a process has that pid.
    pub fn kill(&mut self, pid: u64) -> (found: bool)
        requires
            old(self).wf(),
        ensures
            final(self).wf(),
            final(self).spaces() == old(self).spaces(),
            found == has_pid(old(self)@.procs, pid),
            final(self)@ == (TableView {
                procs: Seq::new(
                    old(self)@.procs.len(),
                    |j: int| killed_entry(old(self)@.procs[j], pid),
                ),
                ..old(self)@
            }),
    {
        let n: usize = self.procs.len();
        let mut found: bool = false;
        let mut j: usize = 0;
        while j < n
            invariant
                j <= n,
                n == self.procs@.len(),
                n == old(self).procs@.len(),
                self.spaces == old(self).spaces,
                self.next_pid == old(self).next_pid,
                self.init == old(self).init,
                found <==> exists|k: int|
                    0 <= k < j && (#[trigger] old(self).procs@[k]).state != ProcState::Unused
                        && old(self).procs@[k].pid == pid,
                forall|k: int|
                    0 <= k < j ==> #[trigger] self.procs@[k] == killed_entry(
                        old(self).procs@[k],
                        pid,
                    ),
                forall|k: int| j <= k < n ==> #[trigger] self.procs@[k] == old(self).procs@[k],
            decreases n - j,
        {
            let p: Proc = self.procs[j];
            if p.state != ProcState::Unused && p.pid == pid {
                found = true;
                let sleeping: bool = p.state == ProcState::Sleeping;
                self.procs.set(
                    j,
                    Proc {
                        pid: p.pid,
                        state: if sleeping {
                            ProcState::Runnable
                        } else {
                            p.state
                        },
                        parent: p.parent,
                        generation: p.generation,
                        chan: if sleeping {
                            None
                        } else {
                            p.chan
                        },
                        status: p.status,
                        killed: true,
                        trapframe: p.trapframe,
                    },
                );
            }
            j += 1;
        }
        assert(self@.procs =~= Seq::new(
            old(self)@.procs.len(),
            |j: int| killed_entry(old(self)@.procs[j], pid),
        ));
        assert(self.spaces() == old(self).spaces());
        found
    }

    /// The Running process in `slot` exits with `status`: it becomes a
    /// Zombie, its children go to the init process, and whoever waits for a
    /// child of its parent is woken.
    pub fn exit(&mut self, slot: usize, status: i32)
        requires
            old(self).wf(),
            slot < old(self)@.procs.len(),
            old(self)@.procs[slot as int].state == ProcState::Running,
        ensures
            final(self).wf(),
            final(self).spaces() == old(self).spaces(),
            final(self)@ == exit_result(old(self)@, slot as int, status),
    {
        let n: usize = self.procs.len();
        let me: Proc = self.procs[slot];
        let heir: ParentRef = ParentRef {
            slot: self.init,
            generation: self.procs[self.init].generation,
        };
        let mut j: usize = 0;
        while j < n
            invariant
                j <= n,
                slot < n,
                n == self.procs@.len(),
                n == old(self).procs@.len(),
                self.spaces == old(self).spaces,
                self.next_pid == old(self).next_pid,
                self.init == old(self).init,
                me == old(self).procs@[slot as int],
                heir == (ParentRef {
                    slot: old(self).init,
                    generation: old(self).procs@[old(self).init as int].generation,
                }),
                forall|k: int|
                    0 <= k < j ==> #[trigger] self.procs@[k] == exit_entry(
                        old(self)@,
                        slot as int,
                        status,
                        k,
                    ),
                forall|k: int| j <= k < n ==> #[trigger] self.procs@[k] == old(self).procs@[k],
            decreases n - j,
        {
            let p: Proc = self.procs[j];
            if j == slot {
                self.procs.set(
                    j,
                    Proc {
                        pid: p.pid,
                        state: ProcState::Zombie,
                        parent: p.parent,
                        generation: p.generation,
                        chan: None,
                        status,
                        killed: p.killed,
                        trapframe: p.trapframe,
                    },
                );
            } else {
                let child: bool = p.state != ProcState::Unused && p.parent == Some(
                    ParentRef { slot, generation: me.generation },
                );
                let wake: bool = match me.parent {
                    Some(r) => p.state == ProcState::Sleeping && p.chan == Some(
                        Channel::Children(r.slot),
                    ),
                    None => false,
                };
                self.procs.set(
                    j,
                    Proc {
                        pid: p.pid,
                        state: if wake {
                            ProcState::Runnable
                        } else {
                            p.state
                        },
                        parent: if child {
                            Some(heir)
                        } else {
                            p.parent
                        },
                        generation: p.generation,
                        chan: if wake {
                            None
                        } else {
                            p.chan
                        },
                        status: p.status,
                        killed: p.killed,
                        trapframe: p.trapframe,
                    },
                );
            }
            j += 1;
        }
        assert(self@.procs =~= exit_result(old(self)@, slot as int, status).procs);
        assert(self.spaces() == old(self).spaces());
    }

    /// The lowest slot that holds a zombie child of `slot`, and whether
    /// `slot` has any child.
    fn find_zombie_child(&self, slot: usize) -> (r: (Option<usize>, bool))
        requires
            slot < self@.procs.len(),
        ensures
            r.1 == has_children(self@.procs, slot as int),
            r.0 is Some <==> has_zombie_child(self@.procs, slot as int),
            r.0 is Some ==> r.0->0 == first_zombie_child(self@.procs, slot as int)
                && is_first_zombie_child(self@.procs, slot as int, r.0->0 as int),
    {
        let n: usize = self.procs.len();
        let me: ParentRef = ParentRef { slot, generation: self.procs[slot].generation };
        let mut any: bool = false;
        let mut j: usize = 0;
        while j < n
            invariant
                j <= n,
                slot < n,
                n == self.procs@.len(),
                me == (ParentRef { slot, generation: self.procs@[slot as int].generation }),
                any <==> exists|k: int|
                    0 <= k < j && is_child(#[trigger] self.procs@[k], self.procs@, slot as int),
                forall|k: int|
                    0 <= k < j ==> !is_zombie_child(
                        #[trigger] self.procs@[k],
                        self.procs@,
                        slot as int,
                    ),
            decreases n - j,
        {
            let p: Proc = self.procs[j];
            if p.state != ProcState::Unused && p.parent == Some(me) {
                any = true;
                if p.state == ProcState::Zombie {
                    proof {
                        lemma_first_zombie_child(self@.procs, slot as int, j as int);
                    }
                    return (Some(j), true);
                }
            }
            j += 1;
        }
        (None, any)
    }

    /// One step of the running process in `slot` waiting for a child. With
    /// no child at all it fails at once. With a zombie child, the lowest one
    /// is reaped: its page table is emptied, each frame going back to
    /// `frames` once, and its slot becomes unused. Otherwise the caller goes
    /// to sleep on its own children and must call again when woken.
    pub fn wait(&mut self, slot: usize, frames: &mut FrameAllocator) -> (r: Result<
        WaitOutcome,
        ProcError,
    >)
        requires
            old(self).wf(),
            old(frames).wf(),
            slot < old(self)@.procs.len(),
            old(self)@.procs[slot as int].state == ProcState::Running,
            all_apart(old(self).spaces(), old(frames)@),
        ensures
            final(self).wf(),
            final(frames).wf(),
            all_apart(final(self).spaces(), final(frames)@),
            !has_children(old(self)@.procs, slot as int) ==> r == Err::<WaitOutcome, ProcError>(
                ProcError::NoChildren,
            ) && final(self)@ == old(self)@ && final(self).spaces() == old(self).spaces()
                && final(frames)@ == old(frames)@,
            has_children(old(self)@.procs, slot as int) && !has_zombie_child(
                old(self)@.procs,
                slot as int,
            ) ==> r == Ok::<WaitOutcome, ProcError>(WaitOutcome::Blocked) && final(self)@
                == sleep_result(old(self)@, slot as int, Channel::Children(slot))
                && final(self).spaces() == old(self).spaces() && final(frames)@ == old(frames)@,
            has_zombie_child(old(self)@.procs, slot as int) ==> ({
                let c = first_zombie_child(old(self)@.procs, slot as int);
                let space = old(self).spaces()[c];
                &&& r == Ok::<WaitOutcome, ProcError>(
                    WaitOutcome::Reaped {
                        pid: old(self)@.procs[c].pid,
                        status: old(self)@.procs[c].status,
                    },
                )
                &&& is_first_zombie_child(old(self)@.procs, slot as int, c)
                &&& final(self)@ == reap_result(old(self)@, c)
                &&& final(frames)@ == old(frames)@ + mapped_frames(space, space.len() as int)
                &&& final(self).spaces().len() == old(self).spaces().len()
                &&& forall|i: int|
                    0 <= i < old(self).spaces().len() && i != c
                        ==> #[trigger] final(self).spaces()[i] == old(self).spaces()[i]
                &&& final(self).spaces()[c].len() == space.len()
                &&& range_free(final(self).spaces()[c], 0, space.len() as int)
            }),
    {
        let (zombie, any) = self.find_zombie_child(slot);
        match zombie {
            Some(c) => {
                let child: Proc = self.procs[c];
                let generation: u64 = if child.generation < u64::MAX {
                    child.generation + 1
                } else {
                    0
                };
                assert(apart(self.spaces()[c as int], frames@));
                self.spaces[c].release_all(frames);
                self.procs.set(
                    c,
                    Proc {
                        pid: 0,
                        state: ProcState::Unused,
                        parent: None,
                        generation,
                        chan: None,
                        status: 0,
                        killed: false,
                        trapframe: Trapframe { pc: 0, sp: 0, ret: 0 },
                    },
                );
                assert(self@.procs =~= reap_result(old(self)@, c as int).procs);
                proof {
                    let sp = old(self).spaces();
                    assert forall|j: int| 0 <= j < sp.len() implies apart(
                        #[trigger] self.spaces()[j],
                        frames@,
                    ) by {
                        if j != c {
                            assert(self.spaces()[j] == sp[j]);
                            lemma_release_owns(sp[c as int], old(frames)@, sp[j]);
                        }
                    }
                    assert forall|i: int, j: int|
                        0 <= i < sp.len() && 0 <= j < sp.len() && i != j implies tables_apart(
                        #[trigger] self.spaces()[i],
                        #[trigger] self.spaces()[j],
                    ) by {
                        if i != c && j != c {
                            assert(self.spaces()[i] == sp[i] && self.spaces()[j] == sp[j]);
                        }
                    }
                }
                Ok(WaitOutcome::Reaped { pid: child.pid, status: child.status })
            },
            None => {
                if any {
                    self.sleep(slot, Channel::Children(slot));
                    Ok(WaitOutcome::Blocked)
                } else {
                    Err(ProcError::NoChildren)
                }
            },
        }
    }
}

/// A fork gives the child a pid that no live process has, puts it into a
/// slot that held no process, and leaves every other process its pid and
/// its state; the table's invariant holds afterwards.
pub proof fn law_fork_pid_fresh(v: TableView, parent: int, c: int, j: int)
    requires
        table_wf(v),
        v.next_pid < u64::MAX,
        0 <= parent < v.procs.len(),
        v.procs[parent].state == ProcState::Running,
        is_first_unused(v.procs, c),
        0 <= j < v.procs.len(),
    ensures
        table_wf(fork_result(v, parent, c)),
        v.procs[c].state == ProcState::Unused,
        fork_result(v, parent, c).procs[c].pid == v.next_pid,
        fork_result(v, parent, c).procs[c].state == ProcState::Runnable,
        fork_result(v, parent, c).next_pid > v.next_pid,
        v.procs[j].state != ProcState::Unused ==> v.procs[j].pid != v.next_pid,
        j != c ==> fork_result(v, parent, c).procs[j].pid == v.procs[j].pid && fork_result(
            v,
            parent,
            c,
        ).procs[j].state == v.procs[j].state,
{
}

/// Two forks on one table, in whichever order its lock lets them in, return
/// different pids and fill different slots, and both children are in the
/// table afterwards.
pub proof fn law_forks_differ(v: TableView, a: int, b: int)
    requires
        table_wf(v),
        v.next_pid + 1 < u64::MAX,
        0 <= a < v.procs.len(),
        0 <= b < v.procs.len(),
        v.procs[a].state == ProcState::Running,
        v.procs[b].state == ProcState::Running,
        has_unused(v.procs),
        has_unused(fork_result(v, a, first_unused(v.procs)).procs),
    ensures
        ({
            let c1 = first_unused(v.procs);
            let v1 = fork_result(v, a, c1);
            let c2 = first_unused(v1.procs);
            let v2 = fork_result(v1, b, c2);
            &&& v.next_pid != v1.next_pid
            &&& c1 != c2
            &&& v2.procs[c1].pid == v.next_pid
            &&& v2.procs[c2].pid == v1.next_pid
            &&& table_wf(v2)
        }),
{
    let c1 = first_unused(v.procs);
    lemma_first_unused_exists(v.procs);
    let v1 = fork_result(v, a, c1);
    law_fork_pid_fresh(v, a, c1, b);
    lemma_first_unused_exists(v1.procs);
    let c2 = first_unused(v1.procs);
    law_fork_pid_fresh(v1, b, c2, c1);
}

/// After a child exits with `status`, it is a zombie child of its parent
/// that holds exactly that status and still has its pid; a parent that
/// slept waiting for a child is Runnable; and where the child is the lowest
/// zombie child, it is the one that the parent's next wait reaps, after
/// which its slot is unused and nobody's child.
pub proof fn law_wait_after_exit(v: TableView, parent: int, child: int, status: i32)
    requires
        table_wf(v),
        0 <= child < v.procs.len(),
        parent != child,
        v.procs[child].state == ProcState::Running,
        is_child(v.procs[child], v.procs, parent),
    ensures
        ({
            let v1 = exit_result(v, child, status);
            let v2 = reap_result(v1, child);
            &&& table_wf(v1)
            &&& is_zombie_child(v1.procs[child], v1.procs, parent)
            &&& has_zombie_child(v1.procs, parent)
            &&& v1.procs[child].status == status
            &&& v1.procs[child].pid == v.procs[child].pid
            &&& v.procs[parent].state == ProcState::Sleeping && v.procs[parent].chan == Some(
                Channel::Children(parent as usize),
            ) ==> v1.procs[parent].state == ProcState::Runnable
            &&& is_first_zombie_child(v1.procs, parent, child) ==> first_zombie_child(
                v1.procs,
                parent,
            ) == child
            &&& table_wf(v2)
            &&& v2.procs[child].state == ProcState::Unused
            &&& !is_child(v2.procs[child], v2.procs, parent)
        }),
{
    let v1 = exit_result(v, child, status);
    assert(is_zombie_child(v1.procs[child], v1.procs, parent));
    if is_first_zombie_child(v1.procs, parent, child) {
        lemma_first_zombie_child(v1.procs, parent, child);
    }
}

/// An exit leaves no orphan: no process is a child of the one that exited,
/// and each of its children is now a child of the init process.
pub proof fn law_exit_reparents(v: TableView, slot: int, status: i32, j: int)
    requires
        table_wf(v),
        0 <= slot < v.procs.len(),
        slot != v.init,
        0 <= j < v.procs.len(),
        j != slot,
    ensures
        !is_child(exit_result(v, slot, status).procs[j], exit_result(v, slot, status).procs, slot),
        is_child(v.procs[j], v.procs, slot) ==> is_child(
            exit_result(v, slot, status).procs[j],
            exit_result(v, slot, status).procs,
            v.init as int,
        ),
{
}

/// A wakeup makes exactly the sleepers on the channel Runnable: afterwards
/// nobody sleeps on it, and whoever did not sleep on it is as before.
pub proof fn law_wakeup_is_broadcast(v: TableView, chan: Channel, j: int)
    requires
        0 <= j < v.procs.len(),
    ensures
        !(wakeup_result(v, chan).procs[j].state == ProcState::Sleeping && wakeup_result(
            v,
            chan,
        ).procs[j].chan == Some(chan)),
        v.procs[j].state == ProcState::Sleeping && v.procs[j].chan == Some(chan)
            ==> wakeup_result(v, chan).procs[j].state == ProcState::Runnable,
        !(v.procs[j].state == ProcState::Sleeping && v.procs[j].chan == Some(chan))
            ==> wakeup_result(v, chan).procs[j] == v.procs[j],
{
}

/// Reaping a zombie makes every reference to it stale: whoever was its
/// child before is not a child of the slot's next occupant.
pub proof fn law_reap_invalidates_references(v: TableView, c: int, j: int)
    requires
        0 <= c < v.procs.len(),
        0 <= j < v.procs.len(),
        j != c,
        is_child(v.procs[j], v.procs, c),
    ensures
        !is_child(reap_result(v, c).procs[j], reap_result(v, c).procs, c),
        reap_result(v, c).procs[j] == v.procs[j],
{
}

/// The table after the process in `parent` forked `k` times in a row.
pub open spec fn after_forks(v: TableView, parent: int, k: nat) -> TableView
    decreases k,
{
    if k == 0 {
        v
    } else {
        let w = after_forks(v, parent, (k - 1) as nat);
        fork_result(w, parent, first_unused(w.procs))
    }
}

/// Any number of forks in a row, each of which found an unused slot, hand
/// out the pids that follow the table's next pid one by one, so no two of
/// them are the same; the table's invariant holds afterwards, so no two live
/// slots hold the same pid.
pub proof fn law_fork_sequence(v: TableView, parent: int, k: nat)
    requires
        table_wf(v),
        0 <= parent < v.procs.len(),
        v.procs[parent].state == ProcState::Running,
        v.next_pid + k < u64::MAX,
        forall|i: nat| i < k ==> has_unused(#[trigger] after_forks(v, parent, i).procs),
    ensures
        table_wf(after_forks(v, parent, k)),
        after_forks(v, parent, k).next_pid == v.next_pid + k,
        after_forks(v, parent, k).procs.len() == v.procs.len(),
        after_forks(v, parent, k).procs[parent].state == ProcState::Running,
        k > 0 ==> after_forks(v, parent, k).procs[parent].trapframe.ret == v.next_pid + k - 1,
    decreases k,
{
    if k > 0 {
        let w = after_forks(v, parent, (k - 1) as nat);
        law_fork_sequence(v, parent, (k - 1) as nat);
        lemma_first_unused_exists(w.procs);
        law_fork_pid_fresh(w, parent, first_unused(w.procs), parent);
    }
}

/// The life of a child that forks nothing and exits at once. Its slot is
/// unused; the fork allocates it, which alone would leave it Used, and fills
/// it in as Runnable; the scheduler makes it Running; its exit makes it a
/// Zombie; its parent's wait makes the slot unused again.
pub proof fn law_lifecycle(v: TableView, parent: int, c: int, status: i32)
    requires
        table_wf(v),
        v.next_pid < u64::MAX,
        0 <= parent < v.procs.len(),
        v.procs[parent].state == ProcState::Running,
        is_first_unused(v.procs, c),
    ensures
        ({
            let allocated = allocate_result(v, c);
            let forked = fork_result(v, parent, c);
            let running = with_state(forked, c, ProcState::Running);
            let exited = exit_result(running, c, status);
            let reaped = reap_result(exited, c);
            &&& v.procs[c].state == ProcState::Unused
            &&& allocated.procs[c].state == ProcState::Used
            &&& forked.procs[c] == (Proc {
                state: ProcState::Runnable,
                parent: forked.procs[c].parent,
                trapframe: forked.procs[c].trapframe,
                ..allocated.procs[c]
            })
            &&& forked.procs[c].state == ProcState::Runnable
            &&& running.procs[c].state == ProcState::Running
            &&& exited.procs[c].state == ProcState::Zombie
            &&& exited.procs[c].status == status
            &&& is_zombie_child(exited.procs[c], exited.procs, parent)
            &&& reaped.procs[c].state == ProcState::Unused
            &&& table_wf(reaped)
        }),
{
    let forked = fork_result(v, parent, c);
    law_fork_pid_fresh(v, parent, c, parent);
    let running = with_state(forked, c, ProcState::Running);
    assert(table_wf(running));
    assert(is_child(running.procs[c], running.procs, parent));
    law_wait_after_exit(running, parent, c, status);
}

/// How many of the first `n` slots are unused.
pub open spec fn unused_count(procs: Seq<Proc>, n: int) -> nat
    decreases n,
{
    if n <= 0 {
        0
    } else {
        unused_count(procs, n - 1) + if procs[n - 1].state == ProcState::Unused {
            1nat
        } else {
            0nat
        }
    }
}

/// Where the count of unused slots is above zero, a slot is unused.
pub proof fn lemma_counted_slot_exists(procs: Seq<Proc>, n: int)
    requires
        0 <= n <= procs.len(),
        unused_count(procs, n) > 0,
    ensures
        has_unused(procs),
    decreases n,
{
    if n > 0 {
        if procs[n - 1].state == ProcState::Unused {
            assert(has_unused(procs));
        } else {
            lemma_counted_slot_exists(procs, n - 1);
        }
    }
}

/// Filling one unused slot, with every other slot unused or not as before,
/// lowers the count of unused slots by one.
pub proof fn lemma_count_after_fill(p: Seq<Proc>, q: Seq<Proc>, c: int, n: int)
    requires
        p.len() == q.len(),
        0 <= c < p.len(),
        0 <= n <= p.len(),
        p[c].state == ProcState::Unused,
        q[c].state != ProcState::Unused,
        forall|j: int|
            0 <= j < p.len() && j != c ==> ((#[trigger] q[j]).state == ProcState::Unused
                <==> p[j].state == ProcState::Unused),
    ensures
        unused_count(q, n) + (if c < n {
            1int
        } else {
            0int
        }) == unused_count(p, n),
    decreases n,
{
    if n > 0 {
        lemma_count_after_fill(p, q, c, n - 1);
        if n - 1 != c {
            assert(q[n - 1].state == ProcState::Unused <==> p[n - 1].state == ProcState::Unused);
        }
    }
}

/// A process can fork as many times in a row as there are unused slots:
/// each of these forks finds a slot, they hand out the pids that follow the
/// table's next pid one by one, and each takes one slot, so no slot is given
/// out twice.
pub proof fn law_forks_up_to_capacity(v: TableView, parent: int, k: nat)
    requires
        table_wf(v),
        0 <= parent < v.procs.len(),
        v.procs[parent].state == ProcState::Running,
        v.next_pid + k < u64::MAX,
        k <= unused_count(v.procs, v.procs.len() as int),
    ensures
        table_wf(after_forks(v, parent, k)),
        after_forks(v, parent, k).next_pid == v.next_pid + k,
        after_forks(v, parent, k).procs.len() == v.procs.len(),
        after_forks(v, parent, k).procs[parent].state == ProcState::Running,
        unused_count(after_forks(v, parent, k).procs, v.procs.len() as int) + k == unused_count(
            v.procs,
            v.procs.len() as int,
        ),
        k > 0 ==> has_unused(after_forks(v, parent, (k - 1) as nat).procs),
    decreases k,
{
    if k > 0 {
        let w = after_forks(v, parent, (k - 1) as nat);
        law_forks_up_to_capacity(v, parent, (k - 1) as nat);
        lemma_counted_slot_exists(w.procs, w.procs.len() as int);
        lemma_first_unused_exists(w.procs);
        let c = first_unused(w.procs);
        law_fork_pid_fresh(w, parent, c, parent);
        let x = fork_result(w, parent, c);
        assert forall|j: int| 0 <= j < w.procs.len() && j != c implies ((#[trigger] x.procs[j]).state
            == ProcState::Unused <==> w.procs[j].state == ProcState::Unused) by {
            law_fork_pid_fresh(w, parent, c, j);
        }
        lemma_count_after_fill(w.procs, x.procs, c, w.procs.len() as int);
    }
}

} // verus!
