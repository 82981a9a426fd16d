//! The lock that guards one connection's shared state, as a state machine.
//!
//! Many tasks take turns on the protocol engine of a connection. A task asks
//! for the lock and is either granted it or queued; the holder's release
//! hands the lock to whoever has waited longest and names that task to be
//! woken. No scheduler thread is ever parked.

use std::collections::VecDeque;
use vstd::prelude::*;

verus! {

/// The answer to a request for the lock.
#[derive(Clone, Copy, Debug, PartialEq, Eq, Structural)]
pub enum Acquire {
    /// The caller holds the lock now
    Granted,
    /// The caller is queued and will be woken when the lock is handed to it
    Pending,
}

/// An operation on the lock, as it appears in a history.
#[derive(Clone, Copy, Debug, PartialEq, Eq, Structural)]
pub enum LockOp {
    /// A task asks for the lock
    TryAcquire(u64),
    /// A task ends its critical section
    Release(u64),
    /// A task gives up waiting
    Cancel(u64),
}

/// What a lock holds, as plain values.
pub struct LockState {
    /// The task the lock belongs to
    pub owner: Option<u64>,
    /// Whether the owner has been told: a lock handed over belongs to its new
    /// owner at once, and is held from the owner's next request on
    pub claimed: bool,
    /// The tasks queued for the lock, in the order in which they arrived
    pub waiters: Seq<u64>,
}

/// Whether no task occurs twice in a queue.
pub open spec fn no_duplicates(s: Seq<u64>) -> bool {
    forall|i: int, j: int| 0 <= i < j < s.len() ==> s[i] != s[j]
}

/// A queue without the given task.
pub open spec fn without_task(s: Seq<u64>, task: u64) -> Seq<u64> {
    if s.contains(task) {
        s.remove(s.index_of(task))
    } else {
        s
    }
}

impl LockState {
    /// What holds of every lock: a task is queued once at most, a lock that
    /// belongs to nobody has nobody queued, and a task that the lock was
    /// handed to is queued no longer.
    pub open spec fn wf(self) -> bool {
        &&& no_duplicates(self.waiters)
        &&& self.owner is None ==> self.waiters.len() == 0 && !self.claimed
        &&& self.owner is Some && !self.claimed ==> !self.waiters.contains(self.owner->Some_0)
    }

    /// A lock that belongs to nobody.
    pub open spec fn initial() -> Self {
        LockState { owner: None, claimed: false, waiters: Seq::empty() }
    }

    /// Whether `task` holds the lock: it owns it and has been told.
    pub open spec fn holds(self, task: u64) -> bool {
        self.owner == Some(task) && self.claimed
    }

    /// Whether anybody holds the lock.
    pub open spec fn held(self) -> bool {
        self.owner is Some && self.claimed
    }

    /// Whether `first` is queued ahead of `second`.
    pub open spec fn ahead(self, first: u64, second: u64) -> bool {
        exists|i: int, j: int|
            0 <= i < j < self.waiters.len() && self.waiters[i] == first && self.waiters[j]
                == second
    }

    /// A request for the lock. A free lock is granted. A lock handed over to
    /// the caller is granted to it. In every other case the caller is queued
    /// behind those who wait already, once.
    pub open spec fn try_acquire(self, task: u64) -> (Self, Acquire) {
        if self.owner is None {
            (LockState { owner: Some(task), claimed: true, waiters: self.waiters }, Acquire::Granted)
        } else if self.owner == Some(task) && !self.claimed {
            (LockState { claimed: true, ..self }, Acquire::Granted)
        } else if self.waiters.contains(task) {
            (self, Acquire::Pending)
        } else {
            (LockState { waiters: self.waiters.push(task), ..self }, Acquire::Pending)
        }
    }

    /// The lock passes on: to whoever has waited longest, who is to be woken,
    /// or to nobody.
    pub open spec fn pass_on(self) -> (Self, Option<u64>) {
        if self.waiters.len() > 0 {
            (
                LockState {
                    owner: Some(self.waiters[0]),
                    claimed: false,
                    waiters: self.waiters.skip(1),
                },
                Some(self.waiters[0]),
            )
        } else {
            (LockState { owner: None, claimed: false, waiters: self.waiters }, None)
        }
    }

    /// The end of a critical section. The holder's release passes the lock
    /// on; a release by anybody else changes nothing.
    pub open spec fn release(self, task: u64) -> (Self, Option<u64>) {
        if self.holds(task) {
            self.pass_on()
        } else {
            (self, None)
        }
    }

    /// A task gives up. If the lock was handed to it and it has not been told,
    /// the lock passes on; otherwise the task leaves the queue. The holder of
    /// the lock is not affected.
    pub open spec fn cancel(self, task: u64) -> (Self, Option<u64>) {
        if self.owner == Some(task) && !self.claimed {
            self.pass_on()
        } else {
            (LockState { waiters: without_task(self.waiters, task), ..self }, None)
        }
    }

    /// The state after one operation.
    pub open spec fn step(self, op: LockOp) -> Self {
        match op {
            LockOp::TryAcquire(task) => self.try_acquire(task).0,
            LockOp::Release(task) => self.release(task).0,
            LockOp::Cancel(task) => self.cancel(task).0,
        }
    }

    /// The state after a history of operations.
    pub open spec fn run(self, ops: Seq<LockOp>) -> Self
        decreases ops.len(),
    {
        if ops.len() == 0 {
            self
        } else {
            self.run(ops.drop_last()).step(ops.last())
        }
    }

    /// The tasks that are inside a critical section after a history: those
    /// that were granted the lock and have not released it since.
    pub open spec fn inside(self, ops: Seq<LockOp>) -> Set<u64>
        decreases ops.len(),
    {
        if ops.len() == 0 {
            if self.held() {
                set![self.owner->Some_0]
            } else {
                Set::empty()
            }
        } else {
            let before = self.run(ops.drop_last());
            let sofar = self.inside(ops.drop_last());
            match ops.last() {
                LockOp::TryAcquire(task) => if before.try_acquire(task).1 == Acquire::Granted {
                    sofar.insert(task)
                } else {
                    sofar
                },
                LockOp::Release(task) => sofar.remove(task),
                LockOp::Cancel(task) => sofar,
            }
        }
    }
}

/// Taking a task out of a queue without duplicates leaves a queue without
/// duplicates and without the task, in which the others keep their order.
pub proof fn lemma_without_task(s: Seq<u64>, task: u64)
    requires
        no_duplicates(s),
    ensures
        no_duplicates(without_task(s, task)),
        !without_task(s, task).contains(task),
        forall|other: u64| other != task ==> (without_task(s, task).contains(other) <==> s.contains(other)),
{
    let r = without_task(s, task);
    if s.contains(task) {
        let at = s.index_of(task);
        assert(0 <= at < s.len() && s[at] == task);
        assert forall|k: int| 0 <= k < r.len() implies r[k] == s[if k < at {
            k
        } else {
            k + 1
        }] by {}
        assert forall|i: int, j: int| 0 <= i < j < r.len() implies r[i] != r[j] by {
            let a = if i < at {
                i
            } else {
                i + 1
            };
            let b = if j < at {
                j
            } else {
                j + 1
            };
            assert(s[a] != s[b]);
        }
        assert(!r.contains(task)) by {
            if r.contains(task) {
                let k = choose|k: int| 0 <= k < r.len() && r[k] == task;
                let a = if k < at {
                    k
                } else {
                    k + 1
                };
                assert(s[a] == task);
                if a < at {
                    assert(s[a] != s[at]);
                } else {
                    assert(s[at] != s[a]);
                }
            }
        }
        assert forall|other: u64| other != task implies (r.contains(other) <==> s.contains(
            other,
        )) by {
            if r.contains(other) {
                let k = choose|k: int| 0 <= k < r.len() && r[k] == other;
                let a = if k < at {
                    k
                } else {
                    k + 1
                };
                assert(s[a] == other);
            }
            if s.contains(other) {
                let a = choose|a: int| 0 <= a < s.len() && s[a] == other;
                let k = if a < at {
                    a
                } else {
                    a - 1
                };
                assert(r[k] == other);
            }
        }
    }
}

/// Passing the lock on keeps it well formed.
pub proof fn lemma_pass_on_wf(s: LockState)
    requires
        no_duplicates(s.waiters),
    ensures
        s.pass_on().0.wf(),
        !s.pass_on().0.held(),
{
    let t = s.pass_on().0;
    assert forall|i: int, j: int| 0 <= i < j < t.waiters.len() implies t.waiters[i]
        != t.waiters[j] by {
        if s.waiters.len() > 0 {
            assert(s.waiters[i + 1] != s.waiters[j + 1]);
        }
    }
    if s.waiters.len() > 0 && t.waiters.contains(s.waiters[0]) {
        let k = choose|k: int| 0 <= k < t.waiters.len() && t.waiters[k] == s.waiters[0];
        assert(s.waiters[0] != s.waiters[k + 1]);
    }
}

/// Every operation keeps the lock well formed.
pub proof fn lemma_step_wf(s: LockState, op: LockOp)
    requires
        s.wf(),
    ensures
        s.step(op).wf(),
{
    match op {
        LockOp::TryAcquire(task) => {
            let t = s.try_acquire(task).0;
            if s.owner is Some && !(s.owner == Some(task) && !s.claimed) && !s.waiters.contains(
                task,
            ) {
                assert forall|i: int, j: int| 0 <= i < j < t.waiters.len() implies t.waiters[i]
                    != t.waiters[j] by {
                    if j == s.waiters.len() {
                        assert(s.waiters.contains(s.waiters[i]));
                    } else {
                        assert(s.waiters[i] != s.waiters[j]);
                    }
                }
                if !s.claimed && t.waiters.contains(s.owner->Some_0) {
                    let k = choose|k: int|
                        0 <= k < t.waiters.len() && t.waiters[k] == s.owner->Some_0;
                    if k < s.waiters.len() {
                        assert(s.waiters[k] == s.owner->Some_0);
                    }
                }
            }
        },
        LockOp::Release(task) => {
            lemma_pass_on_wf(s);
        },
        LockOp::Cancel(task) => {
            lemma_without_task(s.waiters, task);
            lemma_pass_on_wf(s);
        },
    }
}

/// Every history keeps the lock well formed.
pub proof fn lemma_run_wf(s: LockState, ops: Seq<LockOp>)
    requires
        s.wf(),
    ensures
        s.run(ops).wf(),
    decreases ops.len(),
{
    if ops.len() > 0 {
        lemma_run_wf(s, ops.drop_last());
        lemma_step_wf(s.run(ops.drop_last()), ops.last());
    }
}

/// Mutual exclusion. After every history, the tasks that were granted the
/// lock and have not released it are at most one: the holder, if the lock
/// is held, and nobody otherwise.
pub proof fn law_mutual_exclusion(s: LockState, ops: Seq<LockOp>)
    requires
        s.wf(),
    ensures
        s.inside(ops) == if s.run(ops).held() {
            set![s.run(ops).owner->Some_0]
        } else {
            Set::<u64>::empty()
        },
        s.inside(ops).finite(),
        s.inside(ops).len() <= 1,
    decreases ops.len(),
{
    if ops.len() > 0 {
        let before = s.run(ops.drop_last());
        let sofar = s.inside(ops.drop_last());
        law_mutual_exclusion(s, ops.drop_last());
        lemma_run_wf(s, ops.drop_last());
        match ops.last() {
            LockOp::TryAcquire(task) => {
                if before.try_acquire(task).1 == Acquire::Granted {
                    assert(sofar.insert(task) =~= set![task]);
                }
            },
            LockOp::Release(task) => {
                if before.holds(task) {
                    lemma_pass_on_wf(before);
                    assert(sofar.remove(task) =~= Set::<u64>::empty());
                } else {
                    assert(sofar.remove(task) =~= sofar);
                }
            },
            LockOp::Cancel(task) => {
                lemma_without_task(before.waiters, task);
                lemma_pass_on_wf(before);
            },
        }
    }
    let inside = s.inside(ops);
    if s.run(ops).held() {
        assert(inside.len() == 1) by {
            assert(inside =~= Set::<u64>::empty().insert(s.run(ops).owner->Some_0));
        }
    }
}

/// While the lock is held, a request by another task is never granted.
pub proof fn law_no_grant_while_held(s: LockState, holder: u64, task: u64)
    requires
        s.holds(holder),
    ensures
        s.try_acquire(task).1 == Acquire::Pending,
        s.try_acquire(task).0.holds(holder),
{
}

/// Hand-off in arrival order. The holder's release gives the lock to whoever
/// has waited longest, and a newcomer is queued behind everyone who waits.
pub proof fn law_fifo_handoff(s: LockState, holder: u64, newcomer: u64)
    requires
        s.wf(),
        s.holds(holder),
        s.waiters.len() > 0,
        newcomer != holder,
        !s.waiters.contains(newcomer),
    ensures
        s.release(holder).1 == Some(s.waiters[0]),
        s.release(holder).0.owner == Some(s.waiters[0]),
        s.release(holder).0.waiters == s.waiters.skip(1),
        s.release(holder).0.try_acquire(s.waiters[0]).1 == Acquire::Granted,
        s.try_acquire(newcomer).0.waiters == s.waiters.push(newcomer),
        forall|other: u64|
            s.waiters.contains(other) ==> s.try_acquire(newcomer).0.ahead(other, newcomer),
{
    let t = s.try_acquire(newcomer).0;
    assert forall|other: u64| s.waiters.contains(other) implies t.ahead(other, newcomer) by {
        let i = choose|i: int| 0 <= i < s.waiters.len() && s.waiters[i] == other;
        assert(t.waiters[i] == other && t.waiters[s.waiters.len() as int] == newcomer);
    }
}

/// Only the longest waiter is served. Whatever happens to a lock that
/// belongs to somebody, it becomes another task's only by being handed to the
/// task at the head of the queue.
pub proof fn law_longest_waiter_is_served(s: LockState, op: LockOp, task: u64)
    requires
        s.wf(),
        s.owner is Some,
        s.owner != Some(task),
        s.step(op).owner == Some(task),
    ensures
        s.waiters.len() > 0,
        task == s.waiters[0],
        s.step(op).waiters == s.waiters.skip(1),
        !s.step(op).held(),
{
}

/// Giving up does not disturb the order of those who go on waiting: the
/// queue afterwards is the queue before with the one task taken out.
pub proof fn law_cancel_keeps_order(s: LockState, task: u64)
    requires
        s.wf(),
        s.waiters.contains(task),
    ensures
        s.cancel(task).0.waiters == s.waiters.remove(s.waiters.index_of(task)),
        s.cancel(task).0.owner == s.owner,
        s.cancel(task).1 is None,
{
}

/// The lock of one connection's shared state.
pub struct Mutex {
    owner: Option<u64>,
    claimed: bool,
    waiters: VecDeque<u64>,
}

impl View for Mutex {
    type V = LockState;

    closed spec fn view(&self) -> LockState {
        LockState { owner: self.owner, claimed: self.claimed, waiters: self.waiters@ }
    }
}

impl Mutex {
    #[verifier::type_invariant]
    spec fn inv(self) -> bool {
        self@.wf()
    }

    /// A lock that belongs to nobody.
    pub fn new() -> (m: Self)
        ensures
            m@ == LockState::initial(),
            m@.wf(),
    {
        Mutex { owner: None, claimed: false, waiters: VecDeque::new() }
    }

    /// Where `task` stands in the queue.
    fn position(&self, task: u64) -> (r: Option<usize>)
        ensures
            match r {
                Some(at) => at < self@.waiters.len() && self@.waiters[at as int] == task,
                None => !self@.waiters.contains(task),
            },
    {
        let mut i: usize = 0;
        while i < self.waiters.len()
            invariant
                i <= self.waiters.len(),
                forall|k: int| 0 <= k < i ==> self.waiters@[k] != task,
            decreases self.waiters.len() - i,
        {
            if self.waiters[i] == task {
                return Some(i);
            }
            i += 1;
        }
        None
    }

    /// Ask for the lock on behalf of `task`. `Granted` means that the task
    /// holds the lock from now on; `Pending` means that it is queued, once,
    /// behind those who wait already, and will be named by the release that
    /// hands the lock to it.
    pub fn try_acquire(&mut self, task: u64) -> (r: Acquire)
        ensures
            (final(self)@, r) == old(self)@.try_acquire(task),
            final(self)@.wf(),
    {
        proof {
            use_type_invariant(&*self);
            lemma_step_wf(self@, LockOp::TryAcquire(task));
        }
        match self.owner {
            None => {
                let mut taken = Mutex::new();
                std::mem::swap(self, &mut taken);
                let Mutex { owner, claimed, waiters } = taken;
                *self = Mutex { owner: Some(task), claimed: true, waiters };
                Acquire::Granted
            },
            Some(owner) => {
                if owner == task && !self.claimed {
                    self.claimed = true;
                    Acquire::Granted
                } else {
                    match self.position(task) {
                        Some(_) => Acquire::Pending,
                        None => {
                            let mut taken = Mutex::new();
                            std::mem::swap(self, &mut taken);
                            let Mutex { owner, claimed, waiters } = taken;
                            let mut waiters = waiters;
                            waiters.push_back(task);
                            *self = Mutex { owner, claimed, waiters };
                            Acquire::Pending
                        },
                    }
                }
            },
        }
    }

    /// Hand the lock to whoever has waited longest, or to nobody.
    fn pass_on(&mut self) -> (wake: Option<u64>)
        ensures
            (final(self)@, wake) == old(self)@.pass_on(),
            final(self)@.wf(),
    {
        proof {
            use_type_invariant(&*self);
            lemma_pass_on_wf(self@);
        }
        let ghost before = self@;
        let mut taken = Mutex::new();
        std::mem::swap(self, &mut taken);
        let Mutex { owner, claimed, waiters } = taken;
        let mut waiters = waiters;
        let next = waiters.pop_front();
        assert(next is Some ==> waiters@ =~= before.waiters.skip(1));
        *self = Mutex { owner: next, claimed: false, waiters };
        next
    }

    /// End the critical section of `task`. If the task holds the lock, the
    /// lock passes to whoever has waited longest, and that task is returned
    /// to be woken; with nobody waiting the lock is free. A release by a task
    /// that does not hold the lock does nothing.
    pub fn release(&mut self, task: u64) -> (wake: Option<u64>)
        ensures
            (final(self)@, wake) == old(self)@.release(task),
            final(self)@.wf(),
    {
        proof {
            use_type_invariant(&*self);
        }
        let holds: bool = match self.owner {
            Some(owner) => owner == task && self.claimed,
            None => false,
        };
        if holds {
            self.pass_on()
        } else {
            None
        }
    }

    /// Give up on behalf of `task`, whose pending request was dropped. A task
    /// that was queued leaves the queue. A task that the lock was handed to
    /// without it having been told passes the lock on, and the next one is
    /// returned to be woken. The holder of the lock is not affected.
    pub fn cancel(&mut self, task: u64) -> (wake: Option<u64>)
        ensures
            (final(self)@, wake) == old(self)@.cancel(task),
            final(self)@.wf(),
    {
        proof {
            use_type_invariant(&*self);
            lemma_step_wf(self@, LockOp::Cancel(task));
        }
        let handed: bool = match self.owner {
            Some(owner) => owner == task && !self.claimed,
            None => false,
        };
        if handed {
            self.pass_on()
        } else {
            match self.position(task) {
                Some(at) => {
                    let ghost before = self@;
                    proof {
                        let chosen = before.waiters.index_of(task);
                        assert(before.waiters.contains(task));
                        if chosen != at {
                            if chosen < at {
                                assert(before.waiters[chosen] != before.waiters[at as int]);
                            } else {
                                assert(before.waiters[at as int] != before.waiters[chosen]);
                            }
                        }
                    }
                    let mut taken = Mutex::new();
                    std::mem::swap(self, &mut taken);
                    let Mutex { owner, claimed, waiters } = taken;
                    let mut waiters = waiters;
                    let _ = waiters.remove(at);
                    *self = Mutex { owner, claimed, waiters };
                    None
                },
                None => None,
            }
        }
    }

    /// The task that holds the lock.
    pub fn holder(&self) -> (r: Option<u64>)
        ensures
            r == if self@.held() {
                self@.owner
            } else {
                None
            },
    {
        if self.claimed {
            self.owner
        } else {
            None
        }
    }

    /// How many tasks are queued.
    pub fn waiting(&self) -> (n: usize)
        ensures
            n == self@.waiters.len(),
    {
        self.waiters.len()
    }
}

} // verus!
