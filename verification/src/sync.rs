//! Lock words of the kernel and user space mutexes, condition variable counters, and
//! a value that can be taken once.
//!
//! Each type holds the word that its atomic holds in a running system; the methods
//! are the decisions taken on it, one atomic step each.

use vstd::prelude::*;

verus! {

/// Lock word of an unlocked lock holding a cpu id.
pub const UNLOCKED_CPU: usize = usize::MAX;

/// Lock word values of the futex locks.
pub const UNLOCKED: usize = 0;
pub const LOCKED: usize = 1;
pub const LOCKED_CONTENDED: usize = 2;

/// A spin lock that remembers which cpu holds it.
pub struct SpinLock {
    lock: usize,
}

impl SpinLock {
    pub closed spec fn holder(&self) -> Option<usize> {
        if self.lock == UNLOCKED_CPU {
            None
        } else {
            Some(self.lock)
        }
    }

    pub fn new() -> (r: Self)
        ensures
            r.holder() is None,
    {
        SpinLock { lock: UNLOCKED_CPU }
    }

    /// Take the lock for cpu `id` if it is free.
    pub fn try_lock(&mut self, id: usize) -> (r: bool)
        requires
            id != UNLOCKED_CPU,
        ensures
            r == (old(self).holder() is None),
            r ==> final(self).holder() == Some(id),
            !r ==> final(self).holder() == old(self).holder(),
    {
        if self.lock == UNLOCKED_CPU {
            self.lock = id;
            true
        } else {
            false
        }
    }

    /// Does cpu `id` already hold the lock? Locking it again would deadlock.
    pub fn is_deadlock(&self, id: usize) -> (r: bool)
        requires
            id != UNLOCKED_CPU,
        ensures
            r == (self.holder() == Some(id)),
    {
        self.lock == id
    }

    pub fn unlock(&mut self)
        ensures
            final(self).holder() is None,
    {
        self.lock = UNLOCKED_CPU;
    }
}

/// The lock word of the kernel futex mutex.
pub struct Futex {
    lock: usize,
}

impl Futex {
    pub closed spec fn locked(&self) -> bool {
        self.lock == LOCKED
    }

    pub closed spec fn wf(&self) -> bool {
        self.lock == UNLOCKED || self.lock == LOCKED
    }

    pub fn new() -> (r: Self)
        ensures
            r.wf(),
            !r.locked(),
    {
        Futex { lock: UNLOCKED }
    }

    /// Take the lock if it is free; a caller that fails waits on the word and tries again.
    pub fn try_lock(&mut self) -> (r: bool)
        requires
            old(self).wf(),
        ensures
            final(self).wf(),
            r == !old(self).locked(),
            final(self).locked(),
    {
        if self.lock == UNLOCKED {
            self.lock = LOCKED;
            true
        } else {
            false
        }
    }

    /// Release the lock; the caller then wakes one waiter.
    pub fn unlock(&mut self)
        ensures
            final(self).wf(),
            !final(self).locked(),
    {
        self.lock = UNLOCKED;
    }
}

/// The lock word of the kernel mutex that spins while the scheduler is not running.
pub struct AutoFutex {
    lock: usize,
}

impl AutoFutex {
    pub closed spec fn locked(&self) -> bool {
        self.lock == LOCKED
    }

    pub closed spec fn wf(&self) -> bool {
        self.lock == UNLOCKED || self.lock == LOCKED
    }

    pub fn new() -> (r: Self)
        ensures
            r.wf(),
            !r.locked(),
    {
        AutoFutex { lock: UNLOCKED }
    }

    /// Take the lock if it is free.
    pub fn try_lock(&mut self) -> (r: bool)
        requires
            old(self).wf(),
        ensures
            final(self).wf(),
            r == !old(self).locked(),
            final(self).locked(),
    {
        if self.lock == UNLOCKED {
            self.lock = LOCKED;
            true
        } else {
            false
        }
    }

    /// Release the lock; waiters are woken only while the scheduler runs.
    pub fn unlock(&mut self, running: bool) -> (wake: bool)
        ensures
            final(self).wf(),
            !final(self).locked(),
            wake == running,
    {
        self.lock = UNLOCKED;
        running
    }
}

/// The lock word of the user space futex mutex: unlocked, locked, or locked with
/// waiters.
pub struct UserFutex {
    futex: usize,
}

impl UserFutex {
    pub closed spec fn state(&self) -> usize {
        self.futex
    }

    pub open spec fn wf(&self) -> bool {
        self.state() == UNLOCKED || self.state() == LOCKED || self.state() == LOCKED_CONTENDED
    }

    pub fn new() -> (r: Self)
        ensures
            r.state() == UNLOCKED,
    {
        UserFutex { futex: UNLOCKED }
    }

    /// Take the lock if it is unlocked.
    pub fn try_lock(&mut self) -> (r: bool)
        ensures
            r == (old(self).state() == UNLOCKED),
            r ==> final(self).state() == LOCKED,
            !r ==> final(self).state() == old(self).state(),
    {
        if self.futex == UNLOCKED {
            self.futex = LOCKED;
            true
        } else {
            false
        }
    }

    /// One round of the slow path of locking: take the lock if it is unlocked, else
    /// record that there is a waiter. `true` when the lock was taken; otherwise the
    /// caller sleeps while the word is `LOCKED_CONTENDED` and comes back.
    pub fn lock_round(&mut self) -> (r: bool)
        ensures
            r == (old(self).state() == UNLOCKED),
            r ==> final(self).state() == LOCKED,
            !r && old(self).state() == LOCKED ==> final(self).state() == LOCKED_CONTENDED,
            !r && old(self).state() != LOCKED ==> final(self).state() == old(self).state(),
    {
        if self.try_lock() {
            return true;
        }
        if self.futex == LOCKED {
            self.futex = LOCKED_CONTENDED;
        }
        false
    }

    /// Release the lock; `true` when a waiter has to be woken.
    pub fn unlock(&mut self) -> (wake: bool)
        ensures
            final(self).state() == UNLOCKED,
            wake == (old(self).state() == LOCKED_CONTENDED),
    {
        let old = self.futex;
        self.futex = UNLOCKED;
        old == LOCKED_CONTENDED
    }
}

/// A condition variable: a counter bumped by every notification, so that a waiter
/// that read it before unlocking its mutex cannot miss one.
pub struct Condvar {
    futex: usize,
}

impl Condvar {
    pub closed spec fn counter(&self) -> usize {
        self.futex
    }

    pub fn new() -> (r: Self)
        ensures
            r.counter() == 0,
    {
        Condvar { futex: 0 }
    }

    /// The counter a waiter reads before it unlocks its mutex.
    pub fn value(&self) -> (r: usize)
        ensures
            r == self.counter(),
    {
        self.futex
    }

    /// Wake one waiter: the counter moves on; the caller wakes one sleeper.
    pub fn notify_one(&mut self)
        ensures
            final(self).counter() == if old(self).counter() == usize::MAX {
                0
            } else {
                old(self).counter() + 1
            },
    {
        self.futex = self.futex.wrapping_add(1);
    }

    /// Wake all waiters: the counter moves on; the caller wakes every sleeper.
    pub fn notify_all(&mut self)
        ensures
            final(self).counter() == if old(self).counter() == usize::MAX {
                0
            } else {
                old(self).counter() + 1
            },
    {
        self.futex = self.futex.wrapping_add(1);
    }

    /// Does a waiter that read `seen` still have to sleep?
    pub fn should_wait(&self, seen: usize) -> (r: bool)
        ensures
            r == (self.counter() == seen),
    {
        self.futex == seen
    }
}

/// A value that can be taken out once.
pub struct TakeOnce<T> {
    val: Option<T>,
}

impl<T> TakeOnce<T> {
    pub closed spec fn content(&self) -> Option<T> {
        self.val
    }

    pub fn new(val: T) -> (r: Self)
        ensures
            r.content() == Some(val),
    {
        TakeOnce { val: Some(val) }
    }

    pub fn none() -> (r: Self)
        ensures
            r.content() is None,
    {
        TakeOnce { val: None }
    }

    /// The value, the first time only.
    pub fn take(&mut self) -> (r: Option<T>)
        ensures
            r == old(self).content(),
            final(self).content() is None,
    {
        self.val.take()
    }
}

/// Whatever order the takes of a `TakeOnce` come in, the first one gets the value and
/// every later one gets nothing: the value is handed out once. Each take is one
/// atomic step on the shared value, so takes from any number of threads form such a
/// sequence.
pub proof fn lemma_taken_once<T>(states: Seq<TakeOnce<T>>, results: Seq<Option<T>>, val: T)
    requires
        states.len() == results.len() + 1,
        states[0].content() == Some(val),
        forall|i: int|
            0 <= i < results.len() ==> #[trigger] results[i] == states[i].content()
                && states[i + 1].content() is None,
    ensures
        results.len() > 0 ==> results[0] == Some(val),
        forall|i: int| 0 < i < results.len() ==> #[trigger] results[i] is None,
{
    assert forall|i: int| 0 < i < results.len() implies #[trigger] results[i] is None by {
        assert(results[i - 1] == states[i - 1].content());
    }
}

/// `u64` keys are ordered the way a `BTreeMap` needs.
proof fn lemma_u64_keys_ordered()
    ensures
        vstd::std_specs::btree::key_obeys_cmp_spec::<u64>(),
{
    broadcast use vstd::std_specs::btree::group_btree_axioms, vstd::laws_cmp::group_laws_cmp;
}

/// The tasks that sleep on a futex, by the physical address of its word, oldest
/// first.
pub struct Waiters<T> {
    addrs: std::collections::BTreeMap<u64, Vec<T>>,
}

impl<T> Waiters<T> {
    /// The queue of each address that has one.
    pub closed spec fn queues(&self) -> Map<u64, Seq<T>> {
        self.addrs@.map_values(|q: Vec<T>| q@)
    }

    /// The queue of `addr`, empty when it has none.
    pub open spec fn queue(&self, addr: u64) -> Seq<T> {
        if self.queues().contains_key(addr) {
            self.queues()[addr]
        } else {
            Seq::empty()
        }
    }

    pub fn new() -> (r: Self)
        ensures
            r.queues() == Map::<u64, Seq<T>>::empty(),
    {
        let r = Waiters { addrs: std::collections::BTreeMap::new() };
        assert(r.queues() =~= Map::<u64, Seq<T>>::empty());
        r
    }

    /// How many tasks wait on `addr`.
    pub fn waiting(&self, addr: u64) -> (r: usize)
        ensures
            r == self.queue(addr).len(),
    {
        proof {
            lemma_u64_keys_ordered();
        }
        match self.addrs.get(&addr) {
            Some(q) => q.len(),
            None => 0,
        }
    }

    /// Queue `task` on `addr`, unless the wait is to be cancelled: then the task comes
    /// back to be run.
    pub fn push(&mut self, addr: u64, task: T, cancel: bool) -> (r: Option<T>)
        ensures
            cancel ==> r == Some(task) && final(self).queues() == old(self).queues(),
            !cancel ==> r is None && final(self).queues() == old(self).queues().insert(
                addr,
                old(self).queue(addr).push(task),
            ),
    {
        if cancel {
            return Some(task);
        }
        proof {
            lemma_u64_keys_ordered();
        }
        let ghost before = self.queues();
        let mut q = match self.addrs.remove(&addr) {
            Some(q) => q,
            None => Vec::new(),
        };
        assert(q@ == old(self).queue(addr));
        q.push(task);
        self.addrs.insert(addr, q);
        assert(self.queues() =~= before.insert(addr, old(self).queue(addr).push(task)));
        None
    }

    /// Drop up to `count` of the newest tasks queued on `addr`.
    pub fn pop(&mut self, addr: u64, count: usize)
        ensures
            old(self).queues().contains_key(addr) ==> final(self).queues() == old(self).queues().insert(
                addr,
                old(self).queue(addr).take(
                    if old(self).queue(addr).len() >= count {
                        old(self).queue(addr).len() - count
                    } else {
                        0
                    },
                ),
            ),
            !old(self).queues().contains_key(addr) ==> final(self).queues() == old(self).queues(),
    {
        proof {
            lemma_u64_keys_ordered();
        }
        let ghost before = self.queues();
        match self.addrs.remove(&addr) {
            Some(mut q) => {
                let new_len = q.len().saturating_sub(count);
                q.truncate(new_len);
                self.addrs.insert(addr, q);
                assert(self.queues() =~= before.insert(addr, old(self).queue(addr).take(new_len as int)));
            },
            None => {
                assert(self.queues() =~= before);
            },
        }
    }
}

/// Spin hint while another thread holds a slab list.
pub fn relax() {
}

} // verus!
