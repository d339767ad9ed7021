//! The registry of heaps and how a thread comes to own one. Every heap has
//! a lock word holding the thread id of its owner; a thread walks the
//! registry, newest heap first, trying each lock. The lock words and the
//! kernel calls on them stay outside; the decisions are made here.
use vstd::prelude::*;

verus! {

/// The registry's bookkeeping: the process id seen last (to notice a fork)
/// and the number of registered heaps.
pub struct ThreadHeaps {
    pub last_pid: u32,
    pub count: usize,
}

/// What a fork check asks for.
#[derive(PartialEq, Eq, Structural, Clone, Copy, Debug)]
pub struct ForkFixup {
    /// Every lock word must be set to this id: the one thread that survived
    /// the fork now owns every heap.
    pub reassign_to: Option<u32>,
    /// The heap the calling thread takes at once.
    pub take: Option<usize>,
}

/// The outcome of a non-blocking, robust attempt to lock a heap.
#[derive(PartialEq, Eq, Structural, Clone, Copy, Debug)]
pub enum TryLockOutcome {
    /// The lock was taken.
    Acquired,
    /// Another live thread holds it.
    Busy,
    /// The thread whose id the word holds no longer exists.
    OwnerGone,
    /// The calling thread already holds it.
    HeldByCaller,
    /// Any other error code.
    Failed(i32),
}

/// What to do after an attempt to lock a heap.
#[derive(PartialEq, Eq, Structural, Clone, Copy, Debug)]
pub enum LockStep {
    /// Use this heap; clear the owner-died mark on its lock word first.
    TakeClearing,
    /// Use this heap as it is.
    Take,
    /// Compare-and-swap the lock word from the stale id it held to the
    /// caller's id; use the heap if that succeeds, else go on.
    Claim,
    /// Try the next heap.
    Next,
    /// The lock primitive failed in a way that is a bug.
    Abort,
}

impl ThreadHeaps {
    /// An empty registry.
    pub fn new() -> (r: ThreadHeaps)
        ensures
            r.last_pid == 0,
            r.count == 0,
    {
        ThreadHeaps { last_pid: 0, count: 0 }
    }

    /// Checks for a fork before walking the registry. When `pid` differs
    /// from the process id seen last, the only surviving thread (whose id
    /// equals the new `pid`) is made the owner of every heap; if the caller
    /// is that thread it takes the newest heap at once.
    pub fn fixup_fork(&mut self, pid: u32, tid: u32) -> (r: ForkFixup)
        ensures
            final(self).count == old(self).count,
            pid == old(self).last_pid ==> final(self).last_pid == old(self).last_pid && r == (ForkFixup {
                reassign_to: None,
                take: None,
            }),
            pid != old(self).last_pid ==> final(self).last_pid == pid && r.reassign_to == Some(pid)
                && r.take == if tid == pid && old(self).count > 0 {
                Some((old(self).count - 1) as usize)
            } else {
                None
            },
    {
        if self.last_pid == pid {
            return ForkFixup { reassign_to: None, take: None };
        }
        self.last_pid = pid;
        let take = if tid == pid && self.count > 0 {
            Some(self.count - 1)
        } else {
            None
        };
        ForkFixup { reassign_to: Some(pid), take }
    }

    /// The next step after an attempt to lock a heap.
    pub fn on_try_lock(outcome: TryLockOutcome) -> (r: LockStep)
        ensures
            r == match outcome {
                TryLockOutcome::Acquired => LockStep::TakeClearing,
                TryLockOutcome::Busy => LockStep::Next,
                TryLockOutcome::OwnerGone => LockStep::Claim,
                TryLockOutcome::HeldByCaller => LockStep::Take,
                TryLockOutcome::Failed(_) => LockStep::Abort,
            },
    {
        match outcome {
            TryLockOutcome::Acquired => LockStep::TakeClearing,
            TryLockOutcome::Busy => LockStep::Next,
            TryLockOutcome::OwnerGone => LockStep::Claim,
            TryLockOutcome::HeldByCaller => LockStep::Take,
            TryLockOutcome::Failed(_) => LockStep::Abort,
        }
    }

    /// The heaps in the order a thread tries them: newest first.
    pub fn walk_order(&self) -> (r: Vec<usize>)
        ensures
            r@.len() == self.count,
            forall|i: int| 0 <= i < self.count ==> r@[i] == self.count - 1 - i,
    {
        let mut r: Vec<usize> = Vec::new();
        let mut k = self.count;
        while k > 0
            invariant
                k <= self.count,
                r@.len() == self.count - k,
                forall|i: int| 0 <= i < r@.len() ==> r@[i] == self.count - 1 - i,
            decreases k,
        {
            k = k - 1;
            r.push(k);
        }
        r
    }

    /// Registers a new heap, locked by its creator; returns its index.
    pub fn register(&mut self) -> (h: usize)
        requires
            old(self).count < usize::MAX,
        ensures
            h == old(self).count,
            final(self).count == old(self).count + 1,
            final(self).last_pid == old(self).last_pid,
    {
        let h = self.count;
        self.count = self.count + 1;
        h
    }
}

} // verus!
