//! Physical frames and page tables.
//!
//! A page table covers a fixed number of virtual pages and maps each one to
//! at most one physical frame with its permission bits.

use vstd::prelude::*;

verus! {

/// Bytes in one page.
pub const PAGE_SIZE: u64 = 4096;

/// Largest frame number whose byte address fits in 64 bits.
pub const MAX_FRAME: u64 = 0xF_FFFF_FFFF_FFFF;

/// The permission bits of a mapping.
#[derive(Clone, Copy, Debug, PartialEq, Eq, Structural)]
pub struct Perms {
    pub read: bool,
    pub write: bool,
    pub execute: bool,
    pub user: bool,
}

/// What a virtual page is mapped to.
#[derive(Clone, Copy, Debug, PartialEq, Eq, Structural)]
pub struct Pte {
    pub frame: u64,
    pub perms: Perms,
}

/// Why an operation on a page table failed.
#[derive(Clone, Copy, Debug, PartialEq, Eq, Structural)]
pub enum VmError {
    /// No free frame is left.
    OutOfMemory,
    /// No valid mapping covers the address or page.
    Unmapped,
    /// A page of the range is already mapped.
    Overlap,
    /// The range leaves the address space, or a frame number is too large.
    OutOfRange,
    /// A shrink would go below zero bytes.
    BelowMinimum,
}

/// Whether every frame number of `frames` has a byte address.
pub open spec fn frames_valid(frames: Seq<u64>) -> bool {
    forall|i: int| 0 <= i < frames.len() ==> #[trigger] frames[i] <= MAX_FRAME
}

/// Whether no frame stands twice in the list `free`.
pub open spec fn stack_distinct(free: Seq<u64>) -> bool {
    forall|a: int, b: int|
        0 <= a < free.len() && 0 <= b < free.len() && a != b ==> #[trigger] free[a]
            != #[trigger] free[b]
}

/// Whether no frame is mapped by two pages of `t`.
pub open spec fn frames_distinct(t: Seq<Option<Pte>>) -> bool {
    forall|i: int, j: int|
        0 <= i < t.len() && 0 <= j < t.len() && i != j && (#[trigger] t[i]) is Some && (
        #[trigger] t[j]) is Some ==> t[i]->0.frame != t[j]->0.frame
}

/// Whether no frame that `t` maps is in the list `free`.
pub open spec fn apart(t: Seq<Option<Pte>>, free: Seq<u64>) -> bool {
    forall|j: int, k: int|
        0 <= j < t.len() && 0 <= k < free.len() && (#[trigger] t[j]) is Some ==> t[j]->0.frame
            != #[trigger] free[k]
}

/// Whether no frame is mapped by both `s` and `t`.
pub open spec fn tables_apart(s: Seq<Option<Pte>>, t: Seq<Option<Pte>>) -> bool {
    forall|i: int, j: int|
        0 <= i < s.len() && 0 <= j < t.len() && (#[trigger] s[i]) is Some && (
        #[trigger] t[j]) is Some ==> s[i]->0.frame != t[j]->0.frame
}

/// Whether pages `vpn .. vpn + n` lie inside a table of `t.len()` pages.
pub open spec fn in_range(t: Seq<Option<Pte>>, vpn: int, n: int) -> bool {
    0 <= vpn && 0 <= n && vpn + n <= t.len()
}

/// Whether none of the pages `vpn .. vpn + n` is mapped.
pub open spec fn range_free(t: Seq<Option<Pte>>, vpn: int, n: int) -> bool {
    forall|j: int| vpn <= j < vpn + n ==> (#[trigger] t[j]) is None
}

/// Whether all of the pages `vpn .. vpn + n` are mapped.
pub open spec fn range_mapped(t: Seq<Option<Pte>>, vpn: int, n: int) -> bool {
    forall|j: int| vpn <= j < vpn + n ==> (#[trigger] t[j]) is Some
}

/// The table `t` after page `vpn + i` was mapped to `frames[i]` for every `i`.
pub open spec fn map_result(t: Seq<Option<Pte>>, vpn: int, frames: Seq<u64>, perms: Perms) -> Seq<
    Option<Pte>,
> {
    Seq::new(
        t.len(),
        |j: int|
            if vpn <= j < vpn + frames.len() {
                Some(Pte { frame: frames[j - vpn], perms })
            } else {
                t[j]
            },
    )
}

/// The table `t` after pages `vpn .. vpn + n` were unmapped.
pub open spec fn unmap_result(t: Seq<Option<Pte>>, vpn: int, n: int) -> Seq<Option<Pte>> {
    Seq::new(
        t.len(),
        |j: int|
            if vpn <= j < vpn + n {
                None
            } else {
                t[j]
            },
    )
}

/// The physical byte address that `t` gives to the virtual byte address `va`.
pub open spec fn translation(t: Seq<Option<Pte>>, va: u64) -> Option<int> {
    let vpn = va as int / 4096;
    if vpn < t.len() && t[vpn] is Some {
        Some(t[vpn]->0.frame as int * 4096 + va as int % 4096)
    } else {
        None
    }
}

/// How many of the first `n` pages of `t` are mapped.
pub open spec fn mapped_count(t: Seq<Option<Pte>>, n: int) -> nat
    decreases n,
{
    if n <= 0 {
        0
    } else {
        mapped_count(t, n - 1) + if t[n - 1] is Some {
            1nat
        } else {
            0nat
        }
    }
}

/// The frames of the first `n` pages of `t`, in page order.
pub open spec fn mapped_frames(t: Seq<Option<Pte>>, n: int) -> Seq<u64>
    decreases n,
{
    if n <= 0 {
        Seq::empty()
    } else if t[n - 1] is Some {
        mapped_frames(t, n - 1).push(t[n - 1]->0.frame)
    } else {
        mapped_frames(t, n - 1)
    }
}

/// The copy of table `t` whose frames were taken one by one from the top of
/// the free stack `free`, in page order.
pub open spec fn duplicate_result(t: Seq<Option<Pte>>, free: Seq<u64>) -> Seq<Option<Pte>> {
    Seq::new(
        t.len(),
        |j: int|
            if t[j] is Some {
                Some(
                    Pte {
                        frame: free[free.len() - 1 - mapped_count(t, j)],
                        perms: t[j]->0.perms,
                    },
                )
            } else {
                None
            },
    )
}

/// The count of mapped pages grows with the prefix.
pub proof fn lemma_mapped_count_monotonic(t: Seq<Option<Pte>>, a: int, b: int)
    requires
        a <= b,
    ensures
        mapped_count(t, a) <= mapped_count(t, b),
    decreases b - a,
{
    if a < b {
        lemma_mapped_count_monotonic(t, a, b - 1);
    }
}

/// The number of pages that `size` bytes take.
pub open spec fn pages_for(size: int) -> int {
    size / 4096 + if size % 4096 == 0 {
        0int
    } else {
        1int
    }
}

/// The table `t` after pages `first .. first + n` were mapped to frames
/// taken one by one from the top of the free stack `free`.
pub open spec fn grow_result(
    t: Seq<Option<Pte>>,
    first: int,
    n: int,
    free: Seq<u64>,
    perms: Perms,
) -> Seq<Option<Pte>> {
    Seq::new(
        t.len(),
        |j: int|
            if first <= j < first + n {
                Some(Pte { frame: free[free.len() - 1 - (j - first)], perms })
            } else {
                t[j]
            },
    )
}

/// The frames of pages `first .. first + n` of `t`, in page order.
pub open spec fn range_frames(t: Seq<Option<Pte>>, first: int, n: int) -> Seq<u64> {
    Seq::new(n as nat, |i: int| t[first + i]->0.frame)
}

/// Whether an address space of `size` bytes in table `t` can grow by
/// `bytes`: the new size is a 64-bit number and its pages lie in the table.
pub open spec fn grow_fits(t: Seq<Option<Pte>>, size: u64, bytes: u64) -> bool {
    size + bytes <= u64::MAX && pages_for(size + bytes) <= t.len()
}

/// What resizing an address space of `size` bytes in table `t` by `delta`
/// bytes gives, with the free stack `free`: the new size or the error, the
/// table afterwards and the free stack afterwards. Growing maps the whole
/// pages that the new bytes need; shrinking unmaps the whole pages that are
/// no longer needed; an error changes nothing.
pub open spec fn resize_outcome(
    t: Seq<Option<Pte>>,
    size: u64,
    delta: i64,
    free: Seq<u64>,
    perms: Perms,
) -> (Result<u64, VmError>, Seq<Option<Pte>>, Seq<u64>) {
    if delta >= 0 {
        let first = pages_for(size as int);
        let n = pages_for(size + delta) - first;
        if !grow_fits(t, size, delta as u64) {
            (Err(VmError::OutOfMemory), t, free)
        } else if !range_free(t, first, n) {
            (Err(VmError::Overlap), t, free)
        } else if n > free.len() {
            (Err(VmError::OutOfMemory), t, free)
        } else {
            (
                Ok((size + delta) as u64),
                grow_result(t, first, n, free, perms),
                free.subrange(0, free.len() - n),
            )
        }
    } else {
        let first = pages_for(size + delta);
        let n = pages_for(size as int) - first;
        if size + delta < 0 {
            (Err(VmError::BelowMinimum), t, free)
        } else if !(pages_for(size as int) <= t.len() && range_mapped(t, first, n)) {
            (Err(VmError::Unmapped), t, free)
        } else {
            (Ok((size + delta) as u64), unmap_result(t, first, n), free + range_frames(t, first, n))
        }
    }
}

/// The page of the kernel stack of the process in `slot`, in a kernel table
/// of `limit` pages: the stacks lie at the top of the table, each one below
/// a guard page that stays unmapped.
pub open spec fn kernel_stack_page(limit: int, slot: int) -> int {
    limit - 2 * (slot + 1)
}

/// The permissions of a kernel stack: read and write, for the kernel only.
pub open spec fn kernel_stack_perms() -> Perms {
    Perms { read: true, write: true, execute: false, user: false }
}

/// The kernel table `t` after the kernel stacks of slots `0 .. count` were
/// mapped to frames taken one by one from the top of the free stack `free`.
pub open spec fn stacks_result(t: Seq<Option<Pte>>, count: int, free: Seq<u64>) -> Seq<Option<Pte>> {
    Seq::new(
        t.len(),
        |j: int|
            if t.len() - 2 * count <= j && (t.len() - j) % 2 == 0 {
                Some(
                    Pte {
                        frame: free[free.len() - 1 - ((t.len() - j) / 2 - 1)],
                        perms: kernel_stack_perms(),
                    },
                )
            } else {
                t[j]
            },
    )
}

/// A table that holds no free frame holds none of the lower `n` free frames.
pub proof fn lemma_rest_apart(t: Seq<Option<Pte>>, free: Seq<u64>, n: int)
    requires
        apart(t, free),
        0 <= n <= free.len(),
    ensures
        apart(t, free.subrange(0, n)),
{
    assert forall|j: int, k: int|
        0 <= j < t.len() && 0 <= k < n && (#[trigger] t[j]) is Some implies t[j]->0.frame
        != #[trigger] free.subrange(0, n)[k] by {
        assert(t[j]->0.frame != free[k]);
    }
}

/// Sharing no frame goes both ways.
pub proof fn lemma_tables_apart_symmetric(s: Seq<Option<Pte>>, t: Seq<Option<Pte>>)
    requires
        tables_apart(s, t),
    ensures
        tables_apart(t, s),
{
    assert forall|i: int, j: int|
        0 <= i < t.len() && 0 <= j < s.len() && (#[trigger] t[i]) is Some && (
        #[trigger] s[j]) is Some implies t[i]->0.frame != s[j]->0.frame by {
        assert(s[j]->0.frame != t[i]->0.frame);
    }
}

/// Pages mapped to frames that a table `other` does not hold leave `other`
/// without a frame in common.
pub proof fn lemma_map_owns(
    t: Seq<Option<Pte>>,
    vpn: int,
    frames: Seq<u64>,
    perms: Perms,
    other: Seq<Option<Pte>>,
)
    requires
        in_range(t, vpn, frames.len() as int),
        apart(other, frames),
        tables_apart(other, t),
    ensures
        tables_apart(other, map_result(t, vpn, frames, perms)),
{
    let m = map_result(t, vpn, frames, perms);
    assert forall|i: int, j: int|
        0 <= i < other.len() && 0 <= j < m.len() && (#[trigger] other[i]) is Some && (
        #[trigger] m[j]) is Some implies other[i]->0.frame != m[j]->0.frame by {
        if vpn <= j < vpn + frames.len() {
            assert(other[i]->0.frame != frames[j - vpn]);
        } else {
            assert(other[i]->0.frame != t[j]->0.frame);
        }
    }
}

/// Whether no address space of `spaces` maps a frame of the list `free`.
pub open spec fn all_apart(spaces: Seq<Seq<Option<Pte>>>, free: Seq<u64>) -> bool {
    forall|i: int| 0 <= i < spaces.len() ==> apart(#[trigger] spaces[i], free)
}

/// Whether no two address spaces of `spaces` map the same frame.
pub open spec fn spaces_apart(spaces: Seq<Seq<Option<Pte>>>) -> bool {
    forall|i: int, j: int|
        0 <= i < spaces.len() && 0 <= j < spaces.len() && i != j ==> tables_apart(
            #[trigger] spaces[i],
            #[trigger] spaces[j],
        )
}

/// Whether no address space of `spaces` maps a frame that `kernel` maps.
pub open spec fn kernel_apart(spaces: Seq<Seq<Option<Pte>>>, kernel: Seq<Option<Pte>>) -> bool {
    forall|i: int| 0 <= i < spaces.len() ==> tables_apart(#[trigger] spaces[i], kernel)
}

/// A copy draws its frames from different places of the free stack: no two
/// of its pages share a frame, none of its frames is still free, and it
/// shares no frame with a table `other` that held no free frame.
pub proof fn lemma_duplicate_owns(t: Seq<Option<Pte>>, free: Seq<u64>, other: Seq<Option<Pte>>)
    requires
        stack_distinct(free),
        mapped_count(t, t.len() as int) <= free.len(),
        apart(other, free),
    ensures
        frames_distinct(duplicate_result(t, free)),
        apart(
            duplicate_result(t, free),
            free.subrange(0, free.len() - mapped_count(t, t.len() as int)),
        ),
        tables_apart(other, duplicate_result(t, free)),
        apart(other, free.subrange(0, free.len() - mapped_count(t, t.len() as int))),
{
    let d = duplicate_result(t, free);
    lemma_mapped_count_monotonic(t, 0, t.len() as int);
    lemma_rest_apart(other, free, free.len() - mapped_count(t, t.len() as int));
    let n = t.len() as int;
    assert forall|j: int| 0 <= j < n && t[j] is Some implies free.len() - mapped_count(t, n)
        <= free.len() - 1 - mapped_count(t, j) < free.len() by {
        lemma_mapped_count_monotonic(t, j + 1, n);
    }
    assert forall|i: int, j: int|
        0 <= i < n && 0 <= j < n && i != j && (#[trigger] d[i]) is Some && (
        #[trigger] d[j]) is Some implies d[i]->0.frame != d[j]->0.frame by {
        if i < j {
            lemma_mapped_count_monotonic(t, i + 1, j);
        } else {
            lemma_mapped_count_monotonic(t, j + 1, i);
        }
    }
}

/// Whether one of the first `n` pages of `t` is mapped to `frame`.
pub open spec fn is_frame_of(t: Seq<Option<Pte>>, n: int, frame: u64) -> bool {
    exists|j: int| 0 <= j < n && (#[trigger] t[j]) is Some && t[j]->0.frame == frame
}

/// The frames of the first `n` pages are frames of those pages, and no
/// frame is listed twice where no two pages share one.
pub proof fn lemma_mapped_frames_owned(t: Seq<Option<Pte>>, n: int)
    requires
        0 <= n <= t.len(),
    ensures
        forall|k: int|
            0 <= k < mapped_frames(t, n).len() ==> is_frame_of(
                t,
                n,
                #[trigger] mapped_frames(t, n)[k],
            ),
        frames_distinct(t) ==> stack_distinct(mapped_frames(t, n)),
    decreases n,
{
    if n > 0 {
        lemma_mapped_frames_owned(t, n - 1);
        let before = mapped_frames(t, n - 1);
        let now = mapped_frames(t, n);
        assert forall|k: int| 0 <= k < now.len() implies is_frame_of(t, n, #[trigger] now[k]) by {
            if k < before.len() {
                assert(is_frame_of(t, n - 1, before[k]));
                let j = choose|j: int|
                    0 <= j < n - 1 && (#[trigger] t[j]) is Some && t[j]->0.frame == before[k];
                assert(t[j] is Some && t[j]->0.frame == now[k]);
            } else {
                assert(t[n - 1] is Some && t[n - 1]->0.frame == now[k]);
            }
        }
        if frames_distinct(t) && t[n - 1] is Some {
            assert forall|a: int, b: int|
                0 <= a < now.len() && 0 <= b < now.len() && a != b implies #[trigger] now[a]
                != #[trigger] now[b] by {
                if a < before.len() && b < before.len() {
                    assert(before[a] != before[b]);
                } else if a < before.len() {
                    assert(is_frame_of(t, n - 1, before[a]));
                    let j = choose|j: int|
                        0 <= j < n - 1 && (#[trigger] t[j]) is Some && t[j]->0.frame == before[a];
                    assert(t[j]->0.frame != t[n - 1]->0.frame);
                } else {
                    assert(is_frame_of(t, n - 1, before[b]));
                    let j = choose|j: int|
                        0 <= j < n - 1 && (#[trigger] t[j]) is Some && t[j]->0.frame == before[b];
                    assert(t[j]->0.frame != t[n - 1]->0.frame);
                }
            }
        }
    }
}

/// Giving back the frames of a table whose frames are its own keeps the
/// free stack without a repeated frame, and keeps it apart from any table
/// `other` that shares no frame with the first.
pub proof fn lemma_release_owns(t: Seq<Option<Pte>>, free: Seq<u64>, other: Seq<Option<Pte>>)
    requires
        frames_distinct(t),
        apart(t, free),
        stack_distinct(free),
        apart(other, free),
        tables_apart(other, t),
    ensures
        stack_distinct(free + mapped_frames(t, t.len() as int)),
        apart(other, free + mapped_frames(t, t.len() as int)),
{
    let n = t.len() as int;
    let m = mapped_frames(t, n);
    let all = free + m;
    lemma_mapped_frames_owned(t, n);
    assert forall|a: int, b: int|
        0 <= a < all.len() && 0 <= b < all.len() && a != b implies #[trigger] all[a]
        != #[trigger] all[b] by {
        if a < free.len() && b < free.len() {
            assert(free[a] != free[b]);
        } else if a >= free.len() && b >= free.len() {
            assert(m[a - free.len()] != m[b - free.len()]);
        } else if a < free.len() {
            assert(is_frame_of(t, n, m[b - free.len()]));
            let j = choose|j: int|
                0 <= j < n && (#[trigger] t[j]) is Some && t[j]->0.frame == m[b - free.len()];
            assert(t[j]->0.frame != free[a]);
        } else {
            assert(is_frame_of(t, n, m[a - free.len()]));
            let j = choose|j: int|
                0 <= j < n && (#[trigger] t[j]) is Some && t[j]->0.frame == m[a - free.len()];
            assert(t[j]->0.frame != free[b]);
        }
    }
    assert forall|i: int, k: int|
        0 <= i < other.len() && 0 <= k < all.len() && (#[trigger] other[i]) is Some implies other[i]->0.frame
        != #[trigger] all[k] by {
        if k < free.len() {
            assert(other[i]->0.frame != free[k]);
        } else {
            assert(is_frame_of(t, n, m[k - free.len()]));
            let j = choose|j: int|
                0 <= j < n && (#[trigger] t[j]) is Some && t[j]->0.frame == m[k - free.len()];
            assert(other[i]->0.frame != t[j]->0.frame);
        }
    }
}

/// Pages that get their frames from the top of the free stack share none
/// with each other, with the pages mapped before, with what stays free, or
/// with a table `other` that shared none before.
pub proof fn lemma_grow_owns(
    t: Seq<Option<Pte>>,
    first: int,
    n: int,
    free: Seq<u64>,
    perms: Perms,
    other: Seq<Option<Pte>>,
)
    requires
        frames_distinct(t),
        apart(t, free),
        stack_distinct(free),
        0 <= first,
        0 <= n <= free.len(),
        first + n <= t.len(),
        apart(other, free),
        tables_apart(other, t),
    ensures
        frames_distinct(grow_result(t, first, n, free, perms)),
        apart(grow_result(t, first, n, free, perms), free.subrange(0, free.len() - n)),
        tables_apart(other, grow_result(t, first, n, free, perms)),
        apart(other, free.subrange(0, free.len() - n)),
{
    let g = grow_result(t, first, n, free, perms);
    assert forall|i: int, j: int|
        0 <= i < g.len() && 0 <= j < g.len() && i != j && (#[trigger] g[i]) is Some && (
        #[trigger] g[j]) is Some implies g[i]->0.frame != g[j]->0.frame by {
        let a = free.len() - 1 - (i - first);
        let b = free.len() - 1 - (j - first);
        if first <= i < first + n && first <= j < first + n {
            assert(free[a] != free[b]);
        } else if first <= i < first + n {
            assert(t[j]->0.frame != free[a]);
        } else if first <= j < first + n {
            assert(t[i]->0.frame != free[b]);
        } else {
            assert(t[i]->0.frame != t[j]->0.frame);
        }
    }
    assert forall|i: int, j: int|
        0 <= i < other.len() && 0 <= j < g.len() && (#[trigger] other[i]) is Some && (
        #[trigger] g[j]) is Some implies other[i]->0.frame != g[j]->0.frame by {
        if first <= j < first + n {
            assert(other[i]->0.frame != free[free.len() - 1 - (j - first)]);
        } else {
            assert(other[i]->0.frame != t[j]->0.frame);
        }
    }
    assert forall|j: int, k: int|
        0 <= j < g.len() && 0 <= k < free.len() - n && (#[trigger] g[j]) is Some implies g[j]->0.frame
        != #[trigger] free.subrange(0, free.len() - n)[k] by {
        if first <= j < first + n {
            assert(free[free.len() - 1 - (j - first)] != free[k]);
        } else {
            assert(t[j]->0.frame != free[k]);
        }
    }
    assert forall|j: int, k: int|
        0 <= j < other.len() && 0 <= k < free.len() - n && (#[trigger] other[j]) is Some implies other[j]->0.frame
        != #[trigger] free.subrange(0, free.len() - n)[k] by {
        assert(other[j]->0.frame != free[k]);
    }
}

/// Kernel stacks that get their frames from the top of the free stack
/// share none with each other, with the pages mapped before, with what
/// stays free, or with a table `other` that shared none before.
pub proof fn lemma_stacks_own(
    t: Seq<Option<Pte>>,
    count: int,
    free: Seq<u64>,
    other: Seq<Option<Pte>>,
)
    requires
        frames_distinct(t),
        apart(t, free),
        stack_distinct(free),
        0 <= count <= free.len(),
        2 * count <= t.len(),
        range_free(t, t.len() - 2 * count, 2 * count),
        apart(other, free),
        tables_apart(other, t),
    ensures
        frames_distinct(stacks_result(t, count, free)),
        apart(stacks_result(t, count, free), free.subrange(0, free.len() - count)),
        tables_apart(other, stacks_result(t, count, free)),
        apart(other, free.subrange(0, free.len() - count)),
{
    let g = stacks_result(t, count, free);
    lemma_rest_apart(other, free, free.len() - count);
    let len = t.len() as int;
    assert forall|j: int| 0 <= j < len && #[trigger] g[j] is Some implies (if len - 2 * count
        <= j {
        (len - j) % 2 == 0 && g[j]->0.frame == free[free.len() - 1 - ((len - j) / 2 - 1)]
            && free.len() - count <= free.len() - 1 - ((len - j) / 2 - 1) < free.len()
    } else {
        g[j] == t[j]
    }) by {
        if len - 2 * count <= j {
            assert(t[j] is None);
        }
    }
    assert forall|i: int, j: int|
        0 <= i < g.len() && 0 <= j < g.len() && i != j && (#[trigger] g[i]) is Some && (
        #[trigger] g[j]) is Some implies g[i]->0.frame != g[j]->0.frame by {
        let a = free.len() - 1 - ((len - i) / 2 - 1);
        let b = free.len() - 1 - ((len - j) / 2 - 1);
        if len - 2 * count <= i && len - 2 * count <= j {
            assert(free[a] != free[b]);
        } else if len - 2 * count <= i {
            assert(t[j]->0.frame != free[a]);
        } else if len - 2 * count <= j {
            assert(t[i]->0.frame != free[b]);
        } else {
            assert(t[i]->0.frame != t[j]->0.frame);
        }
    }
    assert forall|i: int, j: int|
        0 <= i < other.len() && 0 <= j < g.len() && (#[trigger] other[i]) is Some && (
        #[trigger] g[j]) is Some implies other[i]->0.frame != g[j]->0.frame by {
        if len - 2 * count <= j {
            assert(other[i]->0.frame != free[free.len() - 1 - ((len - j) / 2 - 1)]);
        } else {
            assert(other[i]->0.frame != t[j]->0.frame);
        }
    }
    assert forall|j: int, k: int|
        0 <= j < g.len() && 0 <= k < free.len() - count && (#[trigger] g[j]) is Some implies g[j]->0.frame
        != #[trigger] free.subrange(0, free.len() - count)[k] by {
        if len - 2 * count <= j {
            assert(free[free.len() - 1 - ((len - j) / 2 - 1)] != free[k]);
        } else {
            assert(t[j]->0.frame != free[k]);
        }
    }
}

/// Giving back the frames of a range of pages keeps the free stack without
/// a repeated frame, apart from the pages that stay mapped and from a table
/// `other` that shared no frame before.
pub proof fn lemma_shrink_owns(
    t: Seq<Option<Pte>>,
    first: int,
    n: int,
    free: Seq<u64>,
    other: Seq<Option<Pte>>,
)
    requires
        frames_distinct(t),
        apart(t, free),
        stack_distinct(free),
        in_range(t, first, n),
        range_mapped(t, first, n),
        apart(other, free),
        tables_apart(other, t),
    ensures
        frames_distinct(unmap_result(t, first, n)),
        stack_distinct(free + range_frames(t, first, n)),
        apart(unmap_result(t, first, n), free + range_frames(t, first, n)),
        apart(other, free + range_frames(t, first, n)),
        tables_apart(other, unmap_result(t, first, n)),
{
    let u = unmap_result(t, first, n);
    let all = free + range_frames(t, first, n);
    assert forall|k: int| free.len() <= k < all.len() implies #[trigger] all[k] == t[first + (k
        - free.len())]->0.frame && t[first + (k - free.len())] is Some by {}
    assert forall|a: int, b: int|
        0 <= a < all.len() && 0 <= b < all.len() && a != b implies #[trigger] all[a]
        != #[trigger] all[b] by {
        if a < free.len() && b < free.len() {
            assert(free[a] != free[b]);
        } else if a >= free.len() && b >= free.len() {
            assert(t[first + (a - free.len())]->0.frame != t[first + (b - free.len())]->0.frame);
        } else if a < free.len() {
            assert(t[first + (b - free.len())]->0.frame != free[a]);
        } else {
            assert(t[first + (a - free.len())]->0.frame != free[b]);
        }
    }
    assert forall|j: int, k: int|
        0 <= j < u.len() && 0 <= k < all.len() && (#[trigger] u[j]) is Some implies u[j]->0.frame
        != #[trigger] all[k] by {
        if k < free.len() {
            assert(t[j]->0.frame != free[k]);
        } else {
            assert(t[j]->0.frame != t[first + (k - free.len())]->0.frame);
        }
    }
    assert forall|j: int, k: int|
        0 <= j < other.len() && 0 <= k < all.len() && (#[trigger] other[j]) is Some implies other[j]->0.frame
        != #[trigger] all[k] by {
        if k < free.len() {
            assert(other[j]->0.frame != free[k]);
        } else {
            assert(other[j]->0.frame != t[first + (k - free.len())]->0.frame);
        }
    }
    assert forall|i: int, j: int|
        0 <= i < other.len() && 0 <= j < u.len() && (#[trigger] other[i]) is Some && (
        #[trigger] u[j]) is Some implies other[i]->0.frame != u[j]->0.frame by {
        assert(other[i]->0.frame != t[j]->0.frame);
    }
}

/// For each of the first `n` pages that both `s` and `t` map, in page
/// order, the frame in `s` and the frame in `t`.
pub open spec fn paired_frames(s: Seq<Option<Pte>>, t: Seq<Option<Pte>>, n: int) -> Seq<(u64, u64)>
    decreases n,
{
    if n <= 0 {
        Seq::empty()
    } else if s[n - 1] is Some && t[n - 1] is Some {
        paired_frames(s, t, n - 1).push((s[n - 1]->0.frame, t[n - 1]->0.frame))
    } else {
        paired_frames(s, t, n - 1)
    }
}

/// A stack of free physical frames.
pub struct FrameAllocator {
    free: Vec<u64>,
}

impl FrameAllocator {
    /// The free frames, the next one to be handed out last.
    pub closed spec fn view(&self) -> Seq<u64> {
        self.free@
    }

    /// Every free frame has a byte address, and none is on the stack
    /// twice.
    pub open spec fn wf(&self) -> bool {
        frames_valid(self@) && stack_distinct(self@)
    }

    /// Whether `frame` is free.
    pub fn is_free(&self, frame: u64) -> (r: bool)
        ensures
            r == self@.contains(frame),
    {
        let mut k: usize = 0;
        while k < self.free.len()
            invariant
                k <= self.free@.len(),
                forall|a: int| 0 <= a < k ==> self.free@[a] != frame,
            decreases self.free@.len() - k,
        {
            if self.free[k] == frame {
                return true;
            }
            k += 1;
        }
        false
    }

    fn put(&mut self, frame: u64)
        ensures
            final(self)@ == old(self)@.push(frame),
    {
        self.free.push(frame);
    }

    /// An allocator that owns no frame.
    pub fn new() -> (a: FrameAllocator)
        ensures
            a.wf(),
            a@ == Seq::<u64>::empty(),
    {
        FrameAllocator { free: Vec::new() }
    }

    /// The number of free frames.
    pub fn available(&self) -> (n: usize)
        ensures
            n == self@.len(),
    {
        self.free.len()
    }

    /// Takes the frame on top of the stack, if there is one.
    pub fn allocate(&mut self) -> (r: Option<u64>)
        ensures
            old(self).wf() ==> final(self).wf(),
            old(self)@.len() == 0 ==> r is None && final(self)@ == old(self)@,
            old(self)@.len() > 0 ==> r == Some(old(self)@.last()) && final(self)@ == old(self)@.drop_last(),
    {
        self.free.pop()
    }

    /// Puts `frame`, which is not free, back on top of the stack.
    pub fn release(&mut self, frame: u64)
        requires
            !old(self)@.contains(frame),
        ensures
            old(self).wf() && frame <= MAX_FRAME ==> final(self).wf(),
            final(self)@ == old(self)@.push(frame),
    {
        self.free.push(frame);
    }
}

/// A page table over `limit` virtual pages.
pub struct PageTable {
    slots: Vec<Option<Pte>>,
}

impl PageTable {
    /// What each virtual page is mapped to.
    pub closed spec fn view(&self) -> Seq<Option<Pte>> {
        self.slots@
    }

    /// Every mapped frame has a byte address, and no frame is mapped by
    /// two pages.
    pub open spec fn wf(&self) -> bool {
        &&& forall|j: int|
            0 <= j < self@.len() && (#[trigger] self@[j]) is Some ==> self@[j]->0.frame
                <= MAX_FRAME
        &&& frames_distinct(self@)
    }

    /// A table of `limit` pages, none of them mapped.
    pub fn new(limit: usize) -> (t: PageTable)
        ensures
            t.wf(),
            t@.len() == limit,
            range_free(t@, 0, limit as int),
    {
        let mut slots: Vec<Option<Pte>> = Vec::new();
        let mut i: usize = 0;
        while i < limit
            invariant
                i <= limit,
                slots@.len() == i,
                forall|j: int| 0 <= j < i ==> (#[trigger] slots@[j]) is None,
            decreases limit - i,
        {
            slots.push(None);
            i += 1;
        }
        PageTable { slots }
    }

    /// The number of virtual pages that the table covers.
    pub fn limit(&self) -> (n: usize)
        ensures
            n == self@.len(),
    {
        self.slots.len()
    }

    /// The entry of page `vpn`, if it is mapped.
    pub fn lookup(&self, vpn: usize) -> (r: Option<Pte>)
        ensures
            r == if vpn < self@.len() {
                self@[vpn as int]
            } else {
                None
            },
    {
        if vpn < self.slots.len() {
            self.slots[vpn]
        } else {
            None
        }
    }

    /// Translates a virtual byte address to the physical one.
    pub fn translate(&self, va: u64) -> (r: Result<u64, VmError>)
        requires
            self.wf(),
        ensures
            match translation(self@, va) {
                Some(pa) => r == Ok::<u64, VmError>(pa as u64) && pa <= u64::MAX,
                None => r == Err::<u64, VmError>(VmError::Unmapped),
            },
    {
        let page: u64 = va / PAGE_SIZE;
        let offset: u64 = va % PAGE_SIZE;
        if page >= self.slots.len() as u64 {
            return Err(VmError::Unmapped);
        }
        match self.slots[page as usize] {
            Some(pte) => Ok(pte.frame * PAGE_SIZE + offset),
            None => Err(VmError::Unmapped),
        }
    }

    /// Maps page `vpn + i` to `frames[i]` with `perms`, for every `i`, or
    /// changes nothing.
    pub fn map_pages(&mut self, vpn: usize, frames: &Vec<u64>, perms: Perms) -> (r: Result<
        (),
        VmError,
    >)
        requires
            old(self).wf(),
            stack_distinct(frames@),
            apart(old(self)@, frames@),
        ensures
            final(self).wf(),
            r is Ok <==> in_range(old(self)@, vpn as int, frames@.len() as int) && frames_valid(
                frames@,
            ) && range_free(old(self)@, vpn as int, frames@.len() as int),
            r is Ok ==> final(self)@ == map_result(old(self)@, vpn as int, frames@, perms),
            r is Err ==> final(self)@ == old(self)@,
            r == Err::<(), VmError>(VmError::OutOfRange) <==> !(in_range(
                old(self)@,
                vpn as int,
                frames@.len() as int,
            ) && frames_valid(frames@)),
            r is Err ==> r->Err_0 == VmError::OutOfRange || r->Err_0 == VmError::Overlap,
    {
        let n: usize = frames.len();
        if vpn > self.slots.len() || n > self.slots.len() - vpn {
            return Err(VmError::OutOfRange);
        }
        let mut i: usize = 0;
        let mut overlap: bool = false;
        while i < n
            invariant
                i <= n,
                n == frames@.len(),
                vpn + n <= self.slots@.len() <= usize::MAX,
                *self == *old(self),
                old(self).wf(),
                forall|k: int| 0 <= k < i ==> #[trigger] frames@[k] <= MAX_FRAME,
                overlap <==> !range_free(self.slots@, vpn as int, i as int),
            decreases n - i,
        {
            if frames[i] > MAX_FRAME {
                return Err(VmError::OutOfRange);
            }
            if self.slots[vpn + i].is_some() {
                overlap = true;
            }
            i += 1;
        }
        if overlap {
            return Err(VmError::Overlap);
        }
        i = 0;
        while i < n
            invariant
                i <= n,
                n == frames@.len(),
                vpn + n <= self.slots@.len() <= usize::MAX,
                self.slots@.len() == old(self).slots@.len(),
                frames_valid(frames@),
                old(self).wf(),
                forall|j: int|
                    0 <= j < self.slots@.len() ==> #[trigger] self.slots@[j] == if vpn <= j < vpn
                        + i {
                        Some(Pte { frame: frames@[j - vpn], perms })
                    } else {
                        old(self).slots@[j]
                    },
            decreases n - i,
        {
            self.slots.set(vpn + i, Some(Pte { frame: frames[i], perms }));
            i += 1;
        }
        assert(self.slots@ =~= map_result(old(self)@, vpn as int, frames@, perms));
        assert forall|i: int, j: int|
            0 <= i < self@.len() && 0 <= j < self@.len() && i != j && (#[trigger] self@[i]) is Some
                && (#[trigger] self@[j]) is Some implies self@[i]->0.frame
            != self@[j]->0.frame by {
            let a = i - vpn;
            let b = j - vpn;
            if vpn <= i < vpn + n && vpn <= j < vpn + n {
                assert(frames@[a] != frames@[b]);
            } else if vpn <= i < vpn + n {
                assert(old(self)@[j]->0.frame != frames@[a]);
            } else if vpn <= j < vpn + n {
                assert(old(self)@[i]->0.frame != frames@[b]);
            } else {
                assert(old(self)@[i]->0.frame != old(self)@[j]->0.frame);
            }
        }
        Ok(())
    }

    /// Unmaps pages `vpn .. vpn + n` and hands back their frames in page
    /// order, each once, or changes nothing.
    pub fn unmap_pages(&mut self, vpn: usize, n: usize) -> (r: Result<Vec<u64>, VmError>)
        ensures
            old(self).wf() ==> final(self).wf(),
            r is Ok <==> in_range(old(self)@, vpn as int, n as int) && range_mapped(
                old(self)@,
                vpn as int,
                n as int,
            ),
            r is Err ==> r->Err_0 == VmError::Unmapped && final(self)@ == old(self)@,
            r is Ok ==> final(self)@ == unmap_result(old(self)@, vpn as int, n as int)
                && r->Ok_0@.len() == n && forall|i: int|
                0 <= i < n ==> #[trigger] r->Ok_0@[i] == old(self)@[vpn + i]->0.frame,
    {
        if vpn > self.slots.len() || n > self.slots.len() - vpn {
            return Err(VmError::Unmapped);
        }
        let mut i: usize = 0;
        while i < n
            invariant
                i <= n,
                vpn + n <= self.slots@.len() <= usize::MAX,
                *self == *old(self),
                range_mapped(self.slots@, vpn as int, i as int),
            decreases n - i,
        {
            if self.slots[vpn + i].is_none() {
                return Err(VmError::Unmapped);
            }
            i += 1;
        }
        let mut freed: Vec<u64> = Vec::new();
        i = 0;
        while i < n
            invariant
                i <= n,
                vpn + n <= self.slots@.len() <= usize::MAX,
                self.slots@.len() == old(self).slots@.len(),
                range_mapped(old(self).slots@, vpn as int, n as int),
                freed@.len() == i,
                forall|k: int| 0 <= k < i ==> #[trigger] freed@[k] == old(self).slots@[vpn + k]->0.frame,
                forall|j: int|
                    0 <= j < self.slots@.len() ==> #[trigger] self.slots@[j] == if vpn <= j < vpn
                        + i {
                        None
                    } else {
                        old(self).slots@[j]
                    },
            decreases n - i,
        {
            match self.slots[vpn + i] {
                Some(pte) => {
                    freed.push(pte.frame);
                },
                None => {},
            }
            self.slots.set(vpn + i, None);
            i += 1;
        }
        assert(self.slots@ =~= unmap_result(old(self)@, vpn as int, n as int));
        Ok(freed)
    }

    /// Copies the table: every mapped page of the copy has the permissions
    /// of this table and a frame of its own, taken from `frames`. Where the
    /// free frames do not suffice, nothing changes.
    pub fn duplicate(&self, frames: &mut FrameAllocator) -> (r: Result<PageTable, VmError>)
        requires
            self.wf(),
            old(frames).wf(),
        ensures
            final(frames).wf(),
            r is Ok <==> mapped_count(self@, self@.len() as int) <= old(frames)@.len(),
            r is Err ==> r->Err_0 == VmError::OutOfMemory && final(frames)@ == old(frames)@,
            r is Ok ==> apart(r->Ok_0@, final(frames)@),
            r is Ok ==> r->Ok_0.wf() && r->Ok_0@ == duplicate_result(self@, old(frames)@)
                && final(frames)@ == old(frames)@.subrange(
                0,
                old(frames)@.len() - mapped_count(self@, self@.len() as int),
            ),
    {
        let n: usize = self.slots.len();
        let ghost free0 = frames@;
        let mut slots: Vec<Option<Pte>> = Vec::new();
        let mut i: usize = 0;
        while i < n
            invariant
                i <= n,
                n == self.slots@.len(),
                slots@.len() == i,
                free0 == old(frames)@,
                frames_valid(free0),
                stack_distinct(free0),
                forall|j: int|
                    0 <= j < i && (#[trigger] slots@[j]) is Some ==> slots@[j]->0.frame
                        <= MAX_FRAME,
                mapped_count(self@, i as int) <= free0.len(),
                frames@ == free0.subrange(0, free0.len() - mapped_count(self@, i as int)),
                forall|j: int|
                    0 <= j < i ==> #[trigger] slots@[j] == duplicate_result(self@, free0)[j],
            decreases n - i,
        {
            match self.slots[i] {
                Some(pte) => {
                    match frames.allocate() {
                        Some(frame) => {
                            slots.push(Some(Pte { frame, perms: pte.perms }));
                        },
                        None => {
                            proof {
                                lemma_mapped_count_monotonic(self@, i as int + 1, n as int);
                            }
                            let mut k: usize = i;
                            while k > 0
                                invariant
                                    k <= i,
                                    i < n,
                                    n == self.slots@.len(),
                                    slots@.len() == i,
                                    frames_valid(free0),
                                    stack_distinct(free0),
                                    mapped_count(self@, k as int) <= free0.len(),
                                    frames@ == free0.subrange(
                                        0,
                                        free0.len() - mapped_count(self@, k as int),
                                    ),
                                    forall|j: int|
                                        0 <= j < i ==> #[trigger] slots@[j] == duplicate_result(
                                            self@,
                                            free0,
                                        )[j],
                                decreases k,
                            {
                                k -= 1;
                                match slots[k] {
                                    Some(copy) => {
                                        frames.put(copy.frame);
                                    },
                                    None => {},
                                }
                                assert(frames@ =~= free0.subrange(
                                    0,
                                    free0.len() - mapped_count(self@, k as int),
                                ));
                            }
                            assert(frames@ =~= free0);
                            return Err(VmError::OutOfMemory);
                        },
                    }
                },
                None => {
                    slots.push(None);
                },
            }
            i += 1;
            assert(frames@ =~= free0.subrange(0, free0.len() - mapped_count(self@, i as int)));
        }
        assert(slots@ =~= duplicate_result(self@, free0));
        proof {
            lemma_duplicate_owns(self@, free0, Seq::empty());
        }
        Ok(PageTable { slots })
    }

    /// What an eager copy has to copy: for each page that this table and
    /// `copy` both map, in page order, this table's frame and the frame of
    /// `copy`.
    pub fn copy_pairs(&self, copy: &PageTable) -> (pairs: Vec<(u64, u64)>)
        requires
            copy@.len() == self@.len(),
        ensures
            pairs@ == paired_frames(self@, copy@, self@.len() as int),
    {
        let n: usize = self.slots.len();
        let mut pairs: Vec<(u64, u64)> = Vec::new();
        let mut i: usize = 0;
        while i < n
            invariant
                i <= n,
                n == self.slots@.len(),
                n == copy.slots@.len(),
                pairs@ == paired_frames(self@, copy@, i as int),
            decreases n - i,
        {
            match (self.slots[i], copy.slots[i]) {
                (Some(from), Some(to)) => {
                    pairs.push((from.frame, to.frame));
                },
                _ => {},
            }
            i += 1;
        }
        pairs
    }

    /// Unmaps every page and puts each frame back on `frames`, once, in page
    /// order.
    pub fn release_all(&mut self, frames: &mut FrameAllocator)
        requires
            old(self).wf(),
            old(frames).wf(),
            apart(old(self)@, old(frames)@),
        ensures
            final(self).wf(),
            final(frames).wf(),
            final(self)@.len() == old(self)@.len(),
            range_free(final(self)@, 0, old(self)@.len() as int),
            final(frames)@ == old(frames)@ + mapped_frames(old(self)@, old(self)@.len() as int),
    {
        let n: usize = self.slots.len();
        let mut i: usize = 0;
        while i < n
            invariant
                i <= n,
                n == self.slots@.len(),
                n == old(self).slots@.len(),
                old(self).wf(),
                frames_valid(frames@),
                forall|j: int| 0 <= j < i ==> (#[trigger] self.slots@[j]) is None,
                forall|j: int| i <= j < n ==> #[trigger] self.slots@[j] == old(self).slots@[j],
                frames@ == old(frames)@ + mapped_frames(old(self)@, i as int),
            decreases n - i,
        {
            match self.slots[i] {
                Some(pte) => {
                    frames.put(pte.frame);
                    self.slots.set(i, None);
                },
                None => {},
            }
            i += 1;
            assert(frames@ =~= old(frames)@ + mapped_frames(old(self)@, i as int));
        }
        proof {
            lemma_release_owns(old(self)@, old(frames)@, Seq::empty());
        }
    }
    /// Maps the kernel stack of each process slot below `count` at its fixed
    /// page, to a frame from `frames`, and leaves the guard pages between
    /// them unmapped; or changes nothing.
    pub fn map_kernel_stacks(&mut self, count: usize, frames: &mut FrameAllocator) -> (r: Result<
        (),
        VmError,
    >)
        requires
            old(self).wf(),
            old(frames).wf(),
            apart(old(self)@, old(frames)@),
        ensures
            final(self).wf(),
            final(frames).wf(),
            apart(final(self)@, final(frames)@),
            r is Err ==> final(self)@ == old(self)@ && final(frames)@ == old(frames)@,
            r == Err::<(), VmError>(VmError::OutOfRange) <==> 2 * count > old(self)@.len(),
            r == Err::<(), VmError>(VmError::Overlap) <==> 2 * count <= old(self)@.len()
                && !range_free(old(self)@, old(self)@.len() - 2 * count, 2 * count),
            r == Err::<(), VmError>(VmError::OutOfMemory) <==> 2 * count <= old(self)@.len()
                && range_free(old(self)@, old(self)@.len() - 2 * count, 2 * count) && count > old(frames)@.len(),
            r is Err ==> r->Err_0 == VmError::OutOfRange || r->Err_0 == VmError::Overlap
                || r->Err_0 == VmError::OutOfMemory,
            r is Ok ==> final(self)@ == stacks_result(old(self)@, count as int, old(frames)@)
                && final(frames)@ == old(frames)@.subrange(0, old(frames)@.len() - count),
    {
        let limit: usize = self.slots.len();
        if count > limit / 2 {
            return Err(VmError::OutOfRange);
        }
        let base: usize = limit - 2 * count;
        let mut i: usize = base;
        while i < limit
            invariant
                base <= i <= limit,
                limit == self.slots@.len(),
                base == limit - 2 * count,
                *self == *old(self),
                *frames == *old(frames),
                apart(old(self)@, old(frames)@),
                old(self).wf(),
                frames.wf(),
                range_free(self.slots@, base as int, i - base),
            decreases limit - i,
        {
            if self.slots[i].is_some() {
                return Err(VmError::Overlap);
            }
            i += 1;
        }
        if frames.available() < count {
            return Err(VmError::OutOfMemory);
        }
        let ghost free0 = frames@;
        let mut slot: usize = 0;
        while slot < count
            invariant
                slot <= count,
                count <= free0.len(),
                2 * count <= limit,
                limit == self.slots@.len(),
                limit == old(self).slots@.len(),
                old(self).wf(),
                frames_valid(free0),
                frames.wf(),
                frames@ == free0.subrange(0, free0.len() - slot),
                forall|j: int|
                    0 <= j < limit ==> #[trigger] self.slots@[j] == if limit - 2 * slot <= j && (
                    limit - j) % 2 == 0 {
                        Some(
                            Pte {
                                frame: free0[free0.len() - 1 - ((limit - j) / 2 - 1)],
                                perms: kernel_stack_perms(),
                            },
                        )
                    } else {
                        old(self).slots@[j]
                    },
            decreases count - slot,
        {
            match frames.allocate() {
                Some(frame) => {
                    self.slots.set(
                        limit - 2 * (slot + 1),
                        Some(
                            Pte {
                                frame,
                                perms: Perms {
                                    read: true,
                                    write: true,
                                    execute: false,
                                    user: false,
                                },
                            },
                        ),
                    );
                },
                None => {},
            }
            slot += 1;
            assert(frames@ =~= free0.subrange(0, free0.len() - slot));
        }
        assert(self.slots@ =~= stacks_result(old(self)@, count as int, free0));
        proof {
            lemma_stacks_own(old(self)@, count as int, free0, Seq::empty());
        }
        Ok(())
    }

    /// Grows an address space of `size` bytes by `bytes`: the whole pages
    /// that the new bytes need are mapped with `perms` to frames from
    /// `frames`. Returns the new size, or changes nothing.
    pub fn grow(&mut self, size: u64, bytes: u64, perms: Perms, frames: &mut FrameAllocator) -> (r:
        Result<u64, VmError>)
        requires
            old(self).wf(),
            old(frames).wf(),
            apart(old(self)@, old(frames)@),
        ensures
            final(self).wf(),
            final(frames).wf(),
            apart(final(self)@, final(frames)@),
            r is Err ==> final(self)@ == old(self)@ && final(frames)@ == old(frames)@,
            r is Ok <==> grow_fits(old(self)@, size, bytes) && range_free(
                old(self)@,
                pages_for(size as int),
                pages_for(size + bytes) - pages_for(size as int),
            ) && pages_for(size + bytes) - pages_for(size as int) <= old(frames)@.len(),
            r == Err::<u64, VmError>(VmError::Overlap) <==> grow_fits(old(self)@, size, bytes)
                && !range_free(
                old(self)@,
                pages_for(size as int),
                pages_for(size + bytes) - pages_for(size as int),
            ),
            r is Err ==> r->Err_0 == VmError::Overlap || r->Err_0 == VmError::OutOfMemory,
            r is Ok ==> ({
                let first = pages_for(size as int);
                let n = pages_for(size + bytes) - first;
                &&& r->Ok_0 == size + bytes
                &&& final(self)@ == grow_result(old(self)@, first, n, old(frames)@, perms)
                &&& final(frames)@ == old(frames)@.subrange(0, old(frames)@.len() - n)
            }),
    {
        if bytes > u64::MAX - size {
            return Err(VmError::OutOfMemory);
        }
        let total: u64 = size + bytes;
        let first_page: u64 = page_count(size);
        let last_page: u64 = page_count(total);
        let limit: usize = self.slots.len();
        if last_page > limit as u64 {
            return Err(VmError::OutOfMemory);
        }
        let first: usize = first_page as usize;
        let n: usize = (last_page - first_page) as usize;
        let mut i: usize = 0;
        while i < n
            invariant
                i <= n,
                first + n <= self.slots@.len() <= usize::MAX,
                *self == *old(self),
                *frames == *old(frames),
                apart(old(self)@, old(frames)@),
                old(self).wf(),
                frames.wf(),
                first == pages_for(size as int),
                n == pages_for(size + bytes) - first,
                grow_fits(old(self)@, size, bytes),
                range_free(self.slots@, first as int, i as int),
            decreases n - i,
        {
            if self.slots[first + i].is_some() {
                return Err(VmError::Overlap);
            }
            i += 1;
        }
        if frames.available() < n {
            return Err(VmError::OutOfMemory);
        }
        let ghost free0 = frames@;
        i = 0;
        while i < n
            invariant
                i <= n,
                n <= free0.len(),
                first + n <= self.slots@.len() <= usize::MAX,
                self.slots@.len() == old(self).slots@.len(),
                old(self).wf(),
                frames_valid(free0),
                frames.wf(),
                frames@ == free0.subrange(0, free0.len() - i),
                forall|j: int|
                    0 <= j < self.slots@.len() ==> #[trigger] self.slots@[j] == if first <= j
                        < first + i {
                        Some(Pte { frame: free0[free0.len() - 1 - (j - first)], perms })
                    } else {
                        old(self).slots@[j]
                    },
            decreases n - i,
        {
            match frames.allocate() {
                Some(frame) => {
                    self.slots.set(first + i, Some(Pte { frame, perms }));
                },
                None => {},
            }
            i += 1;
            assert(frames@ =~= free0.subrange(0, free0.len() - i));
        }
        assert(self.slots@ =~= grow_result(old(self)@, first as int, n as int, free0, perms));
        proof {
            lemma_grow_owns(old(self)@, first as int, n as int, free0, perms, Seq::empty());
        }
        Ok(total)
    }

    /// Shrinks an address space of `size` bytes by `bytes`: the whole pages
    /// that are no longer needed are unmapped and their frames put back on
    /// `frames`, each once, in page order. Returns the new size, or changes
    /// nothing.
    pub fn shrink(&mut self, size: u64, bytes: u64, frames: &mut FrameAllocator) -> (r: Result<
        u64,
        VmError,
    >)
        requires
            old(self).wf(),
            old(frames).wf(),
            apart(old(self)@, old(frames)@),
        ensures
            final(self).wf(),
            final(frames).wf(),
            apart(final(self)@, final(frames)@),
            r is Err ==> final(self)@ == old(self)@ && final(frames)@ == old(frames)@,
            r == Err::<u64, VmError>(VmError::BelowMinimum) <==> bytes > size,
            r is Ok <==> bytes <= size && pages_for(size as int) <= old(self)@.len()
                && range_mapped(
                old(self)@,
                pages_for(size - bytes),
                pages_for(size as int) - pages_for(size - bytes),
            ),
            r is Err ==> r->Err_0 == VmError::BelowMinimum || r->Err_0 == VmError::Unmapped,
            r is Ok ==> ({
                let first = pages_for(size - bytes);
                let n = pages_for(size as int) - first;
                &&& r->Ok_0 == size - bytes
                &&& final(self)@ == unmap_result(old(self)@, first, n)
                &&& final(frames)@ == old(frames)@ + range_frames(old(self)@, first, n)
            }),
    {
        if bytes > size {
            return Err(VmError::BelowMinimum);
        }
        let remaining: u64 = size - bytes;
        let first_page: u64 = page_count(remaining);
        let last_page: u64 = page_count(size);
        if last_page > self.slots.len() as u64 {
            return Err(VmError::Unmapped);
        }
        let first: usize = first_page as usize;
        let n: usize = (last_page - first_page) as usize;
        let freed: Vec<u64> = match self.unmap_pages(first, n) {
            Err(e) => {
                return Err(e);
            },
            Ok(freed) => freed,
        };
        let ghost free0 = frames@;
        let mut i: usize = 0;
        while i < n
            invariant
                i <= n,
                n == freed@.len(),
                old(self).wf(),
                first + n <= old(self)@.len(),
                range_mapped(old(self)@, first as int, n as int),
                forall|k: int|
                    0 <= k < n ==> #[trigger] freed@[k] == old(self)@[first + k]->0.frame,
                frames@ == free0 + range_frames(old(self)@, first as int, i as int),
            decreases n - i,
        {
            assert(old(self)@[first + i] is Some);
            frames.put(freed[i]);
            i += 1;
            assert(frames@ =~= free0 + range_frames(old(self)@, first as int, i as int));
        }
        proof {
            lemma_shrink_owns(old(self)@, first as int, n as int, free0, Seq::empty());
            assert forall|k: int| 0 <= k < frames@.len() implies #[trigger] frames@[k]
                <= MAX_FRAME by {
                if k >= free0.len() {
                    assert(old(self)@[first + (k - free0.len())] is Some);
                }
            }
        }
        Ok(remaining)
    }

    /// Grows or shrinks an address space of `size` bytes by `delta` bytes:
    /// `grow` for a delta of zero or more, `shrink` for one below zero.
    pub fn resize(
        &mut self,
        size: u64,
        delta: i64,
        perms: Perms,
        frames: &mut FrameAllocator,
    ) -> (r: Result<u64, VmError>)
        requires
            old(self).wf(),
            old(frames).wf(),
            apart(old(self)@, old(frames)@),
        ensures
            final(self).wf(),
            final(frames).wf(),
            apart(final(self)@, final(frames)@),
            (r, final(self)@, final(frames)@) == resize_outcome(
                old(self)@,
                size,
                delta,
                old(frames)@,
                perms,
            ),
    {
        if delta >= 0 {
            self.grow(size, delta as u64, perms, frames)
        } else {
            let bytes: u64 = if delta == i64::MIN {
                0x8000_0000_0000_0000u64
            } else {
                (-delta) as u64
            };
            self.shrink(size, bytes, frames)
        }
    }
}

/// The number of pages that `size` bytes take.
pub fn page_count(size: u64) -> (n: u64)
    ensures
        n == pages_for(size as int),
{
    let whole: u64 = size / PAGE_SIZE;
    if size % PAGE_SIZE == 0 {
        whole
    } else {
        whole + 1
    }
}

/// Translating any byte of a page right after it was mapped gives that byte
/// of the frame that was supplied for the page.
pub proof fn law_translate_after_map(
    t: Seq<Option<Pte>>,
    vpn: int,
    frames: Seq<u64>,
    perms: Perms,
    i: int,
    va: u64,
)
    requires
        in_range(t, vpn, frames.len() as int),
        0 <= i < frames.len(),
        va as int / 4096 == vpn + i,
    ensures
        translation(map_result(t, vpn, frames, perms), va) == Some(
            frames[i] as int * 4096 + va as int % 4096,
        ),
{
}

/// Translating any byte of a page right after it was unmapped fails.
pub proof fn law_translate_after_unmap(t: Seq<Option<Pte>>, vpn: int, n: int, va: u64)
    requires
        in_range(t, vpn, n),
        vpn <= va as int / 4096 < vpn + n,
    ensures
        translation(unmap_result(t, vpn, n), va) is None,
{
}

/// Mapping and unmapping leave every page outside the range as it was.
pub proof fn law_other_pages_untouched(
    t: Seq<Option<Pte>>,
    vpn: int,
    frames: Seq<u64>,
    perms: Perms,
    j: int,
)
    requires
        0 <= j < t.len(),
        !(vpn <= j < vpn + frames.len()),
    ensures
        map_result(t, vpn, frames, perms)[j] == t[j],
        unmap_result(t, vpn, frames.len() as int)[j] == t[j],
{
}

/// A table whose pages are all unmapped holds no frame: releasing it again
/// gives nothing back, so each frame is released once.
pub proof fn law_released_table_holds_nothing(t: Seq<Option<Pte>>, n: int)
    requires
        n <= t.len(),
        range_free(t, 0, t.len() as int),
    ensures
        mapped_frames(t, n) == Seq::<u64>::empty(),
        mapped_count(t, n) == 0,
    decreases n,
{
    if n > 0 {
        law_released_table_holds_nothing(t, n - 1);
        assert(t[n - 1] is None);
    }
}

/// A release gives back one frame for each mapped page.
pub proof fn law_one_frame_per_page(t: Seq<Option<Pte>>, n: int)
    ensures
        mapped_frames(t, n).len() == mapped_count(t, n),
    decreases n,
{
    if n > 0 {
        law_one_frame_per_page(t, n - 1);
    }
}

/// After the kernel stacks were mapped, the stack of each slot lies at its
/// fixed page with a frame of its own, and the guard page above it is as it
/// was before.
pub proof fn law_kernel_stacks(t: Seq<Option<Pte>>, count: int, free: Seq<u64>, slot: int)
    requires
        0 <= slot < count,
        2 * count <= t.len(),
    ensures
        stacks_result(t, count, free)[kernel_stack_page(t.len() as int, slot)] == Some(
            Pte { frame: free[free.len() - 1 - slot], perms: kernel_stack_perms() },
        ),
        stacks_result(t, count, free)[kernel_stack_page(t.len() as int, slot) + 1]
            == t[kernel_stack_page(t.len() as int, slot) + 1],
{
}

/// The pairs to copy after a duplication name every mapped page of the
/// source once: there is one pair for each mapped page.
pub proof fn law_copy_covers_every_page(t: Seq<Option<Pte>>, free: Seq<u64>, n: int)
    requires
        0 <= n <= t.len(),
    ensures
        paired_frames(t, duplicate_result(t, free), n).len() == mapped_count(t, n),
    decreases n,
{
    if n > 0 {
        law_copy_covers_every_page(t, free, n - 1);
        let d = duplicate_result(t, free);
        assert(d[n - 1] is Some <==> t[n - 1] is Some);
        lemma_paired_prefix(t, d, n);
    }
}

proof fn lemma_paired_prefix(s: Seq<Option<Pte>>, t: Seq<Option<Pte>>, n: int)
    requires
        0 < n,
    ensures
        paired_frames(s, t, n).len() == paired_frames(s, t, n - 1).len() + if s[n - 1] is Some
            && t[n - 1] is Some {
            1int
        } else {
            0int
        },
{
}

} // verus!
