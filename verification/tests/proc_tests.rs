use kcore::proc::{Channel, ParentRef, ProcError, ProcState, ProcTable, WaitOutcome};
use kcore::vm::{FrameAllocator, Perms, VmError};

fn user_rw() -> Perms {
    Perms { read: true, write: true, execute: false, user: true }
}

/// A table whose slot 0 holds the running init process.
fn booted(capacity: usize) -> ProcTable {
    let mut t = ProcTable::new(capacity, 8);
    let slot = t.allocate().expect("a free slot");
    assert_eq!(slot, 0);
    assert_eq!(t.get(0).state, ProcState::Used);
    t.user_init(slot);
    assert_eq!(t.get(0).state, ProcState::Runnable);
    t.run(slot);
    t
}

#[test]
fn new_table_is_all_unused() {
    let t = ProcTable::new(4, 8);
    assert_eq!(t.capacity(), 4);
    for slot in 0..4 {
        assert_eq!(t.get(slot).state, ProcState::Unused);
    }
    assert_eq!(t.find_unused(), Some(0));
}

#[test]
fn allocate_assigns_next_pid_and_fails_when_full() {
    let mut t = ProcTable::new(2, 8);
    assert_eq!(t.allocate(), Ok(0));
    assert_eq!(t.allocate(), Ok(1));
    assert_eq!(t.get(0).pid, 1);
    assert_eq!(t.get(1).pid, 2);
    assert_eq!(t.get(1).state, ProcState::Used);
    assert_eq!(t.allocate(), Err(ProcError::TableFull));
    assert_eq!(t.get(0).pid, 1);
    assert_eq!(t.get(1).pid, 2);
}

#[test]
fn fork_returns_unique_pids_up_to_capacity() {
    let capacity = 6;
    let mut t = booted(capacity);
    let mut frames = FrameAllocator::new();
    let mut pids = vec![t.get(0).pid];
    for i in 1..capacity {
        let pid = t.fork(0, &mut frames).expect("a free slot");
        assert!(!pids.contains(&pid));
        pids.push(pid);
        assert_eq!(t.get(i).pid, pid);
        assert_eq!(t.get(i).state, ProcState::Runnable);
        assert_eq!(t.get(0).trapframe.ret, pid);
        assert_eq!(t.get(i).trapframe.ret, 0);
    }
    assert_eq!(pids, vec![1, 2, 3, 4, 5, 6]);
    assert_eq!(t.fork(0, &mut frames), Err(ProcError::TableFull));
    for i in 0..capacity {
        assert_eq!(t.get(i).pid, pids[i]);
    }
}

#[test]
fn fork_sets_parent_and_copies_memory() {
    let mut t = booted(4);
    assert_eq!(t.map_pages(0, 2, &vec![70, 71], user_rw()), Ok(()));
    let mut frames = FrameAllocator::new();
    frames.release(5);
    frames.release(6);
    frames.release(7);
    assert_eq!(t.fork(0, &mut frames), Ok(2));
    let child = t.get(1);
    assert_eq!(child.parent, Some(ParentRef { slot: 0, generation: 0 }));
    assert_eq!(child.state, ProcState::Runnable);
    assert_eq!(t.translate(1, 2 * 4096 + 5), Ok(7 * 4096 + 5));
    assert_eq!(t.translate(1, 3 * 4096), Ok(6 * 4096));
    assert_eq!(t.translate(1, 4 * 4096), Err(VmError::Unmapped));
    assert_eq!(t.translate(0, 2 * 4096 + 5), Ok(70 * 4096 + 5));
    assert_eq!(frames.available(), 1);
}

#[test]
fn fork_out_of_memory_changes_nothing() {
    let mut t = booted(4);
    assert_eq!(t.map_pages(0, 0, &vec![70, 71], user_rw()), Ok(()));
    let mut frames = FrameAllocator::new();
    frames.release(5);
    let before = t.get(0);
    assert_eq!(t.fork(0, &mut frames), Err(ProcError::OutOfMemory));
    assert_eq!(t.get(0), before);
    assert_eq!(t.get(1).state, ProcState::Unused);
    assert_eq!(frames.available(), 1);
    assert_eq!(frames.allocate(), Some(5));
}

#[test]
fn wait_without_children_fails_at_once() {
    let mut t = booted(4);
    let mut frames = FrameAllocator::new();
    assert_eq!(t.wait(0, &mut frames), Err(ProcError::NoChildren));
    assert_eq!(t.get(0).state, ProcState::Running);
    assert_eq!(t.get(0).chan, None);
}

#[test]
fn wait_blocks_while_children_live() {
    let mut t = booted(4);
    let mut frames = FrameAllocator::new();
    assert_eq!(t.fork(0, &mut frames), Ok(2));
    assert_eq!(t.wait(0, &mut frames), Ok(WaitOutcome::Blocked));
    assert_eq!(t.get(0).state, ProcState::Sleeping);
    assert_eq!(t.get(0).chan, Some(Channel::Children(0)));
}

#[test]
fn first_process_goes_from_used_to_zombie() {
    let mut t = ProcTable::new(2, 8);
    assert_eq!(t.get(0).state, ProcState::Unused);
    assert_eq!(t.allocate(), Ok(0));
    assert_eq!(t.get(0).state, ProcState::Used);
    t.user_init(0);
    assert_eq!(t.get(0).state, ProcState::Runnable);
    t.run(0);
    assert_eq!(t.get(0).state, ProcState::Running);
    t.exit(0, 0);
    assert_eq!(t.get(0).state, ProcState::Zombie);
    assert_eq!(t.get(0).status, 0);
}

#[test]
fn resize_of_a_process() {
    let mut t = booted(2);
    let mut frames = FrameAllocator::new();
    frames.release(40);
    frames.release(41);
    assert_eq!(t.resize(0, 0, 5000, user_rw(), &mut frames), Ok(5000));
    assert_eq!(t.translate(0, 4999), Ok(40 * 4096 + 903));
    assert_eq!(t.translate(0, 10), Ok(41 * 4096 + 10));
    assert_eq!(t.resize(0, 5000, 4096, user_rw(), &mut frames), Err(VmError::OutOfMemory));
    assert_eq!(t.resize(0, 5000, -5001, user_rw(), &mut frames), Err(VmError::BelowMinimum));
    assert_eq!(t.resize(0, 5000, -1000, user_rw(), &mut frames), Ok(4000));
    assert_eq!(frames.available(), 1);
    assert_eq!(t.translate(0, 4999), Err(VmError::Unmapped));
    assert_eq!(t.get(0).state, ProcState::Running);
}

#[test]
fn forked_child_goes_through_every_state_in_order() {
    let mut t = booted(4);
    let mut frames = FrameAllocator::new();
    assert_eq!(t.get(1).state, ProcState::Unused);
    let pid = t.fork(0, &mut frames).expect("a free slot");
    assert_eq!(t.get(1).state, ProcState::Runnable);
    t.run(1);
    assert_eq!(t.get(1).state, ProcState::Running);
    t.exit(1, 3);
    assert_eq!(t.get(1).state, ProcState::Zombie);
    assert_eq!(t.wait(0, &mut frames), Ok(WaitOutcome::Reaped { pid, status: 3 }));
    assert_eq!(t.get(1).state, ProcState::Unused);
    assert_eq!(t.get(1).generation, 1);
    assert_eq!(t.get(1).pid, 0);
}

#[test]
fn exit_status_reaches_the_parent_and_memory_is_freed_once() {
    let mut t = booted(4);
    assert_eq!(t.map_pages(0, 0, &vec![70, 71], user_rw()), Ok(()));
    let mut frames = FrameAllocator::new();
    frames.release(5);
    frames.release(6);
    let pid = t.fork(0, &mut frames).expect("a free slot");
    assert_eq!(frames.available(), 0);
    assert_eq!(t.wait(0, &mut frames), Ok(WaitOutcome::Blocked));
    t.run(1);
    t.exit(1, -7);
    assert_eq!(t.get(1).status, -7);
    assert_eq!(t.get(0).state, ProcState::Runnable);
    assert_eq!(t.get(0).chan, None);
    t.run(0);
    assert_eq!(t.wait(0, &mut frames), Ok(WaitOutcome::Reaped { pid, status: -7 }));
    assert_eq!(frames.available(), 2);
    assert_eq!(t.translate(1, 0), Err(VmError::Unmapped));
    assert_eq!(t.translate(0, 0), Ok(70 * 4096));
    assert_eq!(t.wait(0, &mut frames), Err(ProcError::NoChildren));
    assert_eq!(frames.available(), 2);
    assert_eq!(frames.allocate(), Some(5));
    assert_eq!(frames.allocate(), Some(6));
}

#[test]
fn wait_reaps_the_lowest_zombie_first() {
    let mut t = booted(4);
    let mut frames = FrameAllocator::new();
    let a = t.fork(0, &mut frames).expect("a free slot");
    let b = t.fork(0, &mut frames).expect("a free slot");
    t.run(2);
    t.exit(2, 20);
    t.run(1);
    t.exit(1, 10);
    assert_eq!(t.wait(0, &mut frames), Ok(WaitOutcome::Reaped { pid: a, status: 10 }));
    assert_eq!(t.wait(0, &mut frames), Ok(WaitOutcome::Reaped { pid: b, status: 20 }));
    assert_eq!(t.wait(0, &mut frames), Err(ProcError::NoChildren));
}

#[test]
fn exit_hands_children_to_init() {
    let mut t = booted(4);
    let mut frames = FrameAllocator::new();
    t.fork(0, &mut frames).expect("a free slot");
    t.run(1);
    t.fork(1, &mut frames).expect("a free slot");
    assert_eq!(t.get(2).parent, Some(ParentRef { slot: 1, generation: 0 }));
    t.exit(1, 0);
    assert_eq!(t.get(2).parent, Some(ParentRef { slot: 0, generation: 0 }));
    assert_eq!(t.get(2).state, ProcState::Runnable);
    assert_eq!(t.get(1).state, ProcState::Zombie);
}

#[test]
fn reused_slot_gets_a_new_pid_and_generation() {
    let mut t = booted(2);
    let mut frames = FrameAllocator::new();
    let first = t.fork(0, &mut frames).expect("a free slot");
    t.run(1);
    t.exit(1, 0);
    assert_eq!(t.wait(0, &mut frames), Ok(WaitOutcome::Reaped { pid: first, status: 0 }));
    let second = t.fork(0, &mut frames).expect("a free slot");
    assert_eq!(first, 2);
    assert_eq!(second, 3);
    assert_eq!(t.get(1).generation, 1);
}

#[test]
fn wakeup_is_a_broadcast_on_one_channel() {
    let mut t = booted(4);
    let mut frames = FrameAllocator::new();
    t.fork(0, &mut frames).expect("a free slot");
    t.fork(0, &mut frames).expect("a free slot");
    t.fork(0, &mut frames).expect("a free slot");
    t.run(1);
    t.run(2);
    t.run(3);
    t.sleep(1, Channel::Token(9));
    t.sleep(2, Channel::Token(9));
    t.sleep(3, Channel::Token(10));
    assert_eq!(t.get(1).state, ProcState::Sleeping);
    t.wakeup(Channel::Token(9));
    assert_eq!(t.get(1).state, ProcState::Runnable);
    assert_eq!(t.get(2).state, ProcState::Runnable);
    assert_eq!(t.get(3).state, ProcState::Sleeping);
    assert_eq!(t.get(3).chan, Some(Channel::Token(10)));
    assert_eq!(t.get(0).state, ProcState::Running);
}

#[test]
fn kill_sets_the_flag_and_wakes_a_sleeper() {
    let mut t = booted(4);
    let mut frames = FrameAllocator::new();
    let pid = t.fork(0, &mut frames).expect("a free slot");
    t.run(1);
    t.sleep(1, Channel::Token(1));
    assert!(t.kill(pid));
    assert!(t.get(1).killed);
    assert_eq!(t.get(1).state, ProcState::Runnable);
    assert!(!t.kill(77));
    assert!(t.kill(1));
    assert_eq!(t.get(0).state, ProcState::Running);
    assert!(t.get(0).killed);
}

#[test]
fn yield_makes_runnable() {
    let mut t = booted(2);
    t.yield_now(0);
    assert_eq!(t.get(0).state, ProcState::Runnable);
}

#[test]
fn next_pid_and_init_slot() {
    let mut t = ProcTable::new(3, 8);
    assert_eq!(t.next_pid(), 1);
    assert_eq!(t.init(), 0);
    assert_eq!(t.allocate(), Ok(0));
    assert_eq!(t.allocate(), Ok(1));
    assert_eq!(t.next_pid(), 3);
    t.user_init(1);
    assert_eq!(t.init(), 1);
}

#[test]
fn copy_pairs_after_a_fork() {
    let mut t = booted(4);
    assert_eq!(t.map_pages(0, 1, &vec![70], user_rw()), Ok(()));
    assert_eq!(t.map_pages(0, 5, &vec![71, 72], user_rw()), Ok(()));
    let mut frames = FrameAllocator::new();
    for f in [5u64, 6, 7, 8] {
        assert!(!frames.is_free(f));
        frames.release(f);
        assert!(frames.is_free(f));
    }
    let pid = t.fork(0, &mut frames).expect("a free slot");
    assert_eq!(t.slot_of(pid), Some(1));
    assert_eq!(t.slot_of(1), Some(0));
    assert_eq!(t.slot_of(99), None);
    assert_eq!(t.copy_pairs(0, 1), vec![(70, 8), (71, 7), (72, 6)]);
    assert_eq!(t.copy_pairs(0, 2), vec![]);
    assert!(frames.is_free(5));
    assert!(!frames.is_free(8));
}
