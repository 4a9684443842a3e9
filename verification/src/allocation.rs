//! Allocation accounting for measured regions: how many allocations a region made, how
//! many bytes it asked for, and how many bytes it gave back.
use vstd::prelude::*;

verus! {

/// What a measured region allocated and released. The counts saturate at `usize::MAX`.
#[derive(Clone, Copy, Debug, PartialEq, Eq, Structural)]
pub struct Allocations {
    pub count: usize,
    pub bytes: usize,
    pub released_bytes: usize,
}

/// `a + b`, saturating at `usize::MAX`.
pub open spec fn sat(a: int, b: int) -> usize {
    if a + b > usize::MAX {
        usize::MAX
    } else {
        (a + b) as usize
    }
}

/// A call into the allocator, as the measuring allocator sees it.
#[derive(Clone, Copy, Debug, PartialEq, Eq, Structural)]
pub enum AllocationEvent {
    /// An allocation of this many bytes, zeroed or not.
    Alloc(usize),
    /// A release of this many bytes.
    Dealloc(usize),
    /// A reallocation from `old` bytes to `new` bytes; `moved` tells whether it succeeded.
    Realloc { old: usize, new: usize, moved: bool },
}

impl Allocations {
    /// Nothing allocated or released.
    pub fn zero() -> (a: Self)
        ensures
            a.count == 0,
            a.bytes == 0,
            a.released_bytes == 0,
    {
        Allocations { count: 0, bytes: 0, released_bytes: 0 }
    }

    /// Counts an allocation of `bytes` bytes.
    pub fn record(&mut self, bytes: usize)
        ensures
            final(self).count == sat(old(self).count as int, 1),
            final(self).bytes == sat(old(self).bytes as int, bytes as int),
            final(self).released_bytes == old(self).released_bytes,
    {
        self.count = self.count.saturating_add(1);
        self.bytes = self.bytes.saturating_add(bytes);
    }

    /// Counts a release of `bytes` bytes.
    pub fn record_release(&mut self, bytes: usize)
        ensures
            final(self).count == old(self).count,
            final(self).bytes == old(self).bytes,
            final(self).released_bytes == sat(old(self).released_bytes as int, bytes as int),
    {
        self.released_bytes = self.released_bytes.saturating_add(bytes);
    }
}

/// The accounting after one more allocator call: a reallocation counts as an allocation of
/// the new size and, when it succeeds, as a release of the old storage.
pub open spec fn after_event(a: Allocations, e: AllocationEvent) -> Allocations {
    match e {
        AllocationEvent::Alloc(n) => Allocations {
            count: sat(a.count as int, 1),
            bytes: sat(a.bytes as int, n as int),
            released_bytes: a.released_bytes,
        },
        AllocationEvent::Dealloc(n) => Allocations {
            count: a.count,
            bytes: a.bytes,
            released_bytes: sat(a.released_bytes as int, n as int),
        },
        AllocationEvent::Realloc { old, new, moved } => Allocations {
            count: sat(a.count as int, 1),
            bytes: sat(a.bytes as int, new as int),
            released_bytes: if moved {
                sat(a.released_bytes as int, old as int)
            } else {
                a.released_bytes
            },
        },
    }
}

/// The accounting of a region whose allocator calls were `events`, in order.
pub open spec fn accounted(events: Seq<AllocationEvent>) -> Allocations
    decreases events.len(),
{
    if events.len() == 0 {
        Allocations { count: 0, bytes: 0, released_bytes: 0 }
    } else {
        after_event(accounted(events.drop_last()), events.last())
    }
}

/// Counts one allocator call.
pub fn observe(a: &mut Allocations, e: AllocationEvent)
    ensures
        *final(a) == after_event(*old(a), e),
{
    match e {
        AllocationEvent::Alloc(n) => a.record(n),
        AllocationEvent::Dealloc(n) => a.record_release(n),
        AllocationEvent::Realloc { old, new, moved } => {
            a.record(new);
            if moved {
                a.record_release(old);
            }
        },
    }
}

/// What a region whose allocator calls were `events` allocated and released.
pub fn measure(events: &[AllocationEvent]) -> (a: Allocations)
    ensures
        a == accounted(events@),
{
    let mut a = Allocations::zero();
    for i in 0..events.len()
        invariant
            a == accounted(events@.take(i as int)),
    {
        proof {
            assert(events@.take(i + 1).drop_last() =~= events@.take(i as int));
        }
        observe(&mut a, events[i]);
    }
    proof {
        assert(events@.take(events@.len() as int) =~= events@);
    }
    a
}

/// The measurement of a thread: the accounting of the region being measured, if any.
pub struct AllocationMeter {
    pub active: Option<Allocations>,
}

impl AllocationMeter {
    /// A meter that measures nothing.
    pub fn idle() -> (m: Self)
        ensures
            m.active is None,
    {
        AllocationMeter { active: None }
    }

    /// Starts measuring a region; regions do not nest.
    pub fn start(&mut self)
        requires
            old(self).active is None,
        ensures
            final(self).active == Some(Allocations { count: 0, bytes: 0, released_bytes: 0 }),
    {
        self.active = Some(Allocations::zero());
    }

    /// Counts an allocator call, if a region is being measured.
    pub fn observe(&mut self, e: AllocationEvent)
        ensures
            final(self).active == match old(self).active {
                Some(a) => Some(after_event(a, e)),
                None => None,
            },
    {
        match self.active {
            Some(a) => {
                let mut a = a;
                observe(&mut a, e);
                self.active = Some(a);
            },
            None => {},
        }
    }

    /// Ends the region being measured and gives its accounting.
    pub fn finish(&mut self) -> (a: Allocations)
        requires
            old(self).active is Some,
        ensures
            a == old(self).active->0,
            final(self).active is None,
    {
        let a = match self.active {
            Some(a) => a,
            None => Allocations::zero(),
        };
        self.active = None;
        a
    }
}

} // verus!
