//! Round-robin selection of the next process to run.
//!
//! A core scans the table from its cursor, wrapping at the end, and takes
//! the first Runnable slot; its cursor then moves just past that slot.

use crate::proc::{with_state, Proc, ProcState, ProcTable, TableView};
use vstd::prelude::*;

verus! {

/// For each slot, whether its process is Runnable.
pub open spec fn ready(procs: Seq<Proc>) -> Seq<bool> {
    Seq::new(procs.len(), |j: int| procs[j].state == ProcState::Runnable)
}

/// The slot that lies `d` slots after `start` in a table of `n` slots,
/// wrapping at the end.
pub open spec fn cyclic(n: int, start: int, d: int) -> int {
    if start + d < n {
        start + d
    } else {
        start + d - n
    }
}

/// Whether a scan from `start` stops after `d` slots: the slot there is
/// ready and none before it is.
pub open spec fn is_pick(ready: Seq<bool>, start: int, d: int) -> bool {
    &&& 0 <= d < ready.len()
    &&& ready[cyclic(ready.len() as int, start, d)]
    &&& forall|e: int| 0 <= e < d ==> !ready[#[trigger] cyclic(ready.len() as int, start, e)]
}

/// Whether some slot is ready.
pub open spec fn any_ready(ready: Seq<bool>) -> bool {
    exists|j: int| 0 <= j < ready.len() && #[trigger] ready[j]
}

/// How many slots a scan from `start` passes before it stops.
pub open spec fn pick_offset(ready: Seq<bool>, start: int) -> int {
    choose|d: int| is_pick(ready, start, d)
}

/// The slot that a scan from `start` selects.
pub open spec fn picked(ready: Seq<bool>, start: int) -> int {
    cyclic(ready.len() as int, start, pick_offset(ready, start))
}

/// The cursor of a core after it selected `slot`.
pub open spec fn cursor_after(n: int, slot: int) -> int {
    if slot + 1 < n {
        slot + 1
    } else {
        0
    }
}

/// How far `slot` lies after `start`, wrapping at the end.
pub open spec fn distance(n: int, start: int, slot: int) -> int {
    if slot >= start {
        slot - start
    } else {
        slot - start + n
    }
}

/// A scan stops at one place only.
pub proof fn lemma_pick_unique(ready: Seq<bool>, start: int, d: int)
    requires
        is_pick(ready, start, d),
    ensures
        pick_offset(ready, start) == d,
{
    let c = pick_offset(ready, start);
    assert(is_pick(ready, start, c));
    let n = ready.len() as int;
    if c < d {
        assert(!ready[cyclic(n, start, c)]);
    }
    if d < c {
        assert(!ready[cyclic(n, start, d)]);
    }
}

/// Selects the first Runnable slot at or after `start`, wrapping at the end
/// of the table.
pub fn pick_next(table: &ProcTable, start: usize) -> (r: Option<usize>)
    requires
        start < table@.procs.len(),
    ensures
        r is Some <==> any_ready(ready(table@.procs)),
        r is Some ==> r->0 < table@.procs.len() && r->0 == picked(
            ready(table@.procs),
            start as int,
        ) && is_pick(
            ready(table@.procs),
            start as int,
            distance(table@.procs.len() as int, start as int, r->0 as int),
        ),
{
    let n: usize = table.capacity();
    let ghost flags = ready(table@.procs);
    let mut d: usize = 0;
    while d < n
        invariant
            d <= n,
            start < n,
            n == table@.procs.len(),
            flags == ready(table@.procs),
            forall|e: int| 0 <= e < d ==> !flags[#[trigger] cyclic(n as int, start as int, e)],
        decreases n - d,
    {
        let slot: usize = if d < n - start {
            start + d
        } else {
            d - (n - start)
        };
        assert(slot == cyclic(n as int, start as int, d as int));
        if table.get(slot).state == ProcState::Runnable {
            proof {
                assert(is_pick(flags, start as int, d as int));
                lemma_pick_unique(flags, start as int, d as int);
                assert(flags[slot as int]);
            }
            return Some(slot);
        }
        d += 1;
    }
    proof {
        assert forall|j: int| 0 <= j < flags.len() implies !#[trigger] flags[j] by {
            let e = distance(n as int, start as int, j);
            assert(cyclic(n as int, start as int, e) == j);
        }
    }
    None
}

/// A scan skips no Runnable slot: whatever is ready and was not selected
/// lies closer to the cursor after the selection than it did before.
pub proof fn law_selection_approaches(ready: Seq<bool>, start: int, j: int)
    requires
        0 <= start < ready.len(),
        0 <= j < ready.len(),
        ready[j],
    ensures
        is_pick(ready, start, pick_offset(ready, start)),
        0 <= picked(ready, start) < ready.len(),
        ready[picked(ready, start)],
        pick_offset(ready, start) <= distance(ready.len() as int, start, j),
        picked(ready, start) != j ==> distance(
            ready.len() as int,
            cursor_after(ready.len() as int, picked(ready, start)),
            j,
        ) < distance(ready.len() as int, start, j),
{
    let n = ready.len() as int;
    let dj = distance(n, start, j);
    assert(cyclic(n, start, dj) == j);
    lemma_scan_stops(ready, start, dj);
    let d = pick_offset(ready, start);
    assert(is_pick(ready, start, d));
    if dj < d {
        assert(!ready[cyclic(n, start, dj)]);
    }
}

/// Where a slot within `d` of `start` is ready, the scan stops somewhere.
pub proof fn lemma_scan_stops(ready: Seq<bool>, start: int, d: int)
    requires
        0 <= start < ready.len(),
        0 <= d < ready.len(),
        ready[cyclic(ready.len() as int, start, d)],
    ensures
        exists|c: int| is_pick(ready, start, c),
    decreases d,
{
    let n = ready.len() as int;
    if forall|e: int| 0 <= e < d ==> !ready[#[trigger] cyclic(n, start, e)] {
        assert(is_pick(ready, start, d));
    } else {
        let e = choose|e: int| 0 <= e < d && ready[#[trigger] cyclic(n, start, e)];
        lemma_scan_stops(ready, start, e);
    }
}

/// How many of the `d` slots from `start` on are ready.
pub open spec fn ready_within(ready: Seq<bool>, start: int, d: int) -> nat
    decreases d,
{
    if d <= 0 {
        0
    } else {
        ready_within(ready, start, d - 1) + if ready[cyclic(ready.len() as int, start, d - 1)] {
            1nat
        } else {
            0nat
        }
    }
}

/// How many slots are ready.
pub open spec fn ready_count(ready: Seq<bool>) -> nat {
    ready_within(ready, 0, ready.len() as int)
}

/// The slot that a core selects at its selection number `k`, counted from
/// 0, when its cursor starts at `start` and the same slots stay ready.
pub open spec fn nth_picked(ready: Seq<bool>, start: int, k: nat) -> int
    decreases k,
{
    if k == 0 {
        picked(ready, start)
    } else {
        nth_picked(
            ready,
            cursor_after(ready.len() as int, picked(ready, start)),
            (k - 1) as nat,
        )
    }
}

/// Counting over `a + b` slots is counting over the first `a` and then over
/// the next `b`.
pub proof fn lemma_ready_within_split(ready: Seq<bool>, start: int, a: int, b: int)
    requires
        0 <= start < ready.len(),
        0 <= a,
        0 <= b,
        a + b <= ready.len(),
    ensures
        ready_within(ready, start, a + b) == ready_within(ready, start, a) + ready_within(
            ready,
            cyclic(ready.len() as int, start, a),
            b,
        ),
    decreases b,
{
    if b > 0 {
        let n = ready.len() as int;
        lemma_ready_within_split(ready, start, a, b - 1);
        assert(cyclic(n, cyclic(n, start, a), b - 1) == cyclic(n, start, a + b - 1));
    }
}

/// The count grows with the number of slots counted.
pub proof fn lemma_ready_within_monotonic(ready: Seq<bool>, start: int, a: int, b: int)
    requires
        a <= b,
    ensures
        ready_within(ready, start, a) <= ready_within(ready, start, b),
    decreases b - a,
{
    if a < b {
        lemma_ready_within_monotonic(ready, start, a, b - 1);
    }
}

/// Where a scan passes `d` slots without stopping, none of them is ready.
pub proof fn lemma_ready_within_none(ready: Seq<bool>, start: int, d: int)
    requires
        forall|e: int| 0 <= e < d ==> !ready[#[trigger] cyclic(ready.len() as int, start, e)],
    ensures
        ready_within(ready, start, d) == 0,
    decreases d,
{
    if d > 0 {
        lemma_ready_within_none(ready, start, d - 1);
        assert(!ready[cyclic(ready.len() as int, start, d - 1)]);
    }
}

/// A full sweep counts every ready slot, wherever it starts.
pub proof fn lemma_full_sweep(ready: Seq<bool>, start: int)
    requires
        0 <= start < ready.len(),
    ensures
        ready_within(ready, start, ready.len() as int) == ready_count(ready),
{
    let n = ready.len() as int;
    lemma_ready_within_split(ready, start, n - start, start);
    lemma_ready_within_split(ready, 0, start, n - start);
    assert(cyclic(n, start, n - start) == 0);
    assert(cyclic(n, 0, start) == start);
}

/// Round-robin fairness. While the same `N` slots stay ready, a core
/// selects each of them within `N` consecutive selections: a ready slot `j`
/// is selected at the selection whose number is the count of ready slots
/// between the cursor and `j`, and that count is below `N`.
pub proof fn law_round_robin_fair(ready: Seq<bool>, start: int, j: int)
    requires
        0 <= start < ready.len(),
        0 <= j < ready.len(),
        ready[j],
    ensures
        ready_within(ready, start, distance(ready.len() as int, start, j)) < ready_count(ready),
        nth_picked(ready, start, ready_within(ready, start, distance(ready.len() as int, start, j)))
            == j,
    decreases distance(ready.len() as int, start, j),
{
    let n = ready.len() as int;
    let dj = distance(n, start, j);
    let rank = ready_within(ready, start, dj);
    assert(cyclic(n, start, dj) == j);
    assert(ready_within(ready, start, dj + 1) == rank + 1);
    lemma_ready_within_monotonic(ready, start, dj + 1, n);
    lemma_full_sweep(ready, start);

    law_selection_approaches(ready, start, j);
    let d0 = pick_offset(ready, start);
    lemma_ready_within_none(ready, start, d0);
    if d0 == dj {
        assert(picked(ready, start) == j);
    } else {
        let next = cursor_after(n, picked(ready, start));
        assert(next == cyclic(n, start, d0 + 1));
        assert(distance(n, next, j) == dj - d0 - 1);
        assert(ready_within(ready, start, d0 + 1) == 1);
        lemma_ready_within_split(ready, start, d0 + 1, dj - d0 - 1);
        law_round_robin_fair(ready, next, j);
        assert(rank == 1 + ready_within(ready, next, distance(n, next, j)));
    }
}

/// A process that is selected and then yields is ready again: a selection
/// followed by a yield leaves the same slots ready, so the selections of
/// `nth_picked` are those of a core whose processes run and yield in turn.
pub proof fn law_yield_restores_ready(v: TableView, slot: int)
    requires
        0 <= slot < v.procs.len(),
        v.procs[slot].state == ProcState::Runnable,
    ensures
        ready(
            with_state(
                with_state(v, slot, ProcState::Running),
                slot,
                ProcState::Runnable,
            ).procs,
        ) == ready(v.procs),
        !ready(with_state(v, slot, ProcState::Running).procs)[slot],
{
    let after = with_state(with_state(v, slot, ProcState::Running), slot, ProcState::Runnable);
    assert(ready(after.procs) =~= ready(v.procs));
}

} // verus!
