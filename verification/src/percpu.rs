//! The state of one core: its identity, the process it runs, and the nested
//! region in which its interrupts are off.

use vstd::prelude::*;

verus! {

/// One core.
#[derive(Clone, Copy, Debug, PartialEq, Eq, Structural)]
pub struct Cpu {
    /// The core's identifier.
    pub id: usize,
    /// The slot of the process that the core runs, if it runs one.
    pub current: Option<usize>,
    /// Where the core's next scan of the process table starts.
    pub cursor: usize,
    /// How many interrupt-off regions are open.
    pub depth: u32,
    /// Whether interrupts were on when the outermost region was entered.
    pub saved: bool,
    /// Whether interrupts are on.
    pub enabled: bool,
}

/// The core after it entered an interrupt-off region.
pub open spec fn pushed(c: Cpu) -> Cpu {
    Cpu {
        depth: (c.depth + 1) as u32,
        saved: if c.depth == 0 {
            c.enabled
        } else {
            c.saved
        },
        enabled: false,
        ..c
    }
}

/// The core after it left an interrupt-off region.
pub open spec fn popped(c: Cpu) -> Cpu {
    Cpu {
        depth: (c.depth - 1) as u32,
        enabled: if c.depth == 1 {
            c.saved
        } else {
            c.enabled
        },
        ..c
    }
}

/// The core after `n` regions were entered, one inside the other.
pub open spec fn pushed_times(c: Cpu, n: nat) -> Cpu
    decreases n,
{
    if n == 0 {
        c
    } else {
        pushed(pushed_times(c, (n - 1) as nat))
    }
}

/// The core after `n` regions were left.
pub open spec fn popped_times(c: Cpu, n: nat) -> Cpu
    decreases n,
{
    if n == 0 {
        c
    } else {
        popped_times(popped(c), (n - 1) as nat)
    }
}

impl Cpu {
    /// The core `id` as it is at boot.
    pub open spec fn new_spec(id: usize) -> Cpu {
        Cpu { id, current: None, cursor: 0, depth: 0, saved: false, enabled: false }
    }

    /// A core that runs no process, with interrupts off and no region open.
    pub fn new(id: usize) -> (c: Cpu)
        ensures
            c == Cpu::new_spec(id),
    {
        Cpu { id, current: None, cursor: 0, depth: 0, saved: false, enabled: false }
    }

    /// Enters an interrupt-off region: interrupts are off afterwards, and
    /// the outermost entry remembers whether they were on.
    pub fn push_off(&mut self)
        requires
            old(self).depth < u32::MAX,
        ensures
            *final(self) == pushed(*old(self)),
    {
        if self.depth == 0 {
            self.saved = self.enabled;
        }
        self.enabled = false;
        self.depth = self.depth + 1;
    }

    /// Leaves an interrupt-off region. Leaving the outermost one puts the
    /// interrupts back as they were before it was entered. With no region
    /// open nothing changes and the result is `false`.
    pub fn pop_off(&mut self) -> (left: bool)
        ensures
            left == (old(self).depth > 0),
            left ==> *final(self) == popped(*old(self)),
            !left ==> *final(self) == *old(self),
    {
        if self.depth == 0 {
            return false;
        }
        self.depth = self.depth - 1;
        if self.depth == 0 {
            self.enabled = self.saved;
        }
        true
    }
}

/// Inside a region the interrupts are off, however deep it is nested.
pub proof fn law_off_inside_region(c: Cpu, n: nat)
    requires
        n >= 1,
        c.depth + n <= u32::MAX,
    ensures
        !pushed_times(c, n).enabled,
        pushed_times(c, n).depth == c.depth + n,
        pushed_times(c, n).saved == if c.depth == 0 {
            c.enabled
        } else {
            c.saved
        },
        pushed_times(c, n).id == c.id,
        pushed_times(c, n).current == c.current,
        pushed_times(c, n).cursor == c.cursor,
    decreases n,
{
    if n > 1 {
        law_off_inside_region(c, (n - 1) as nat);
    } else {
        assert(pushed_times(c, 0) == c);
    }
}

/// Leaving `n` regions with the interrupts off lowers the depth by `n`; the
/// interrupts come back on only if the depth reaches zero, and then exactly
/// as the core saved them.
pub proof fn lemma_leave_regions(c: Cpu, n: nat)
    requires
        n <= c.depth,
        !c.enabled,
    ensures
        popped_times(c, n).depth == c.depth - n,
        popped_times(c, n).saved == c.saved,
        popped_times(c, n).enabled == (n >= 1 && c.depth == n && c.saved),
        popped_times(c, n).id == c.id,
        popped_times(c, n).current == c.current,
        popped_times(c, n).cursor == c.cursor,
    decreases n,
{
    if n > 0 {
        if c.depth > 1 {
            lemma_leave_regions(popped(c), (n - 1) as nat);
        } else {
            assert(popped_times(popped(c), 0) == popped(c));
        }
    }
}

/// Entering `n` nested regions from outside any region and leaving them all
/// gives back the core as it was, its interrupts on or off as before.
pub proof fn law_regions_restore(c: Cpu, n: nat)
    requires
        n >= 1,
        c.depth == 0,
        n <= u32::MAX,
    ensures
        popped_times(pushed_times(c, n), n).enabled == c.enabled,
        popped_times(pushed_times(c, n), n).depth == 0,
        popped_times(pushed_times(c, n), n).id == c.id,
        popped_times(pushed_times(c, n), n).current == c.current,
        popped_times(pushed_times(c, n), n).cursor == c.cursor,
{
    law_off_inside_region(c, n);
    lemma_leave_regions(pushed_times(c, n), n);
}

} // verus!
