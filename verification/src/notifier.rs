//! A one-shot signal that reaches every subscriber, present or future, exactly
//! once.
//!
//! A connection's close must wake an unbounded and changing set of readers,
//! writers and closers. Each of them subscribes and holds a handle; the first
//! `fire` stores the payload and names everyone to wake; a subscriber collects
//! the payload with `poll`, which succeeds once per handle.

use vstd::prelude::*;

verus! {

/// A list of handles without the given one; the others keep their order.
pub open spec fn seq_without(s: Seq<u64>, handle: u64) -> Seq<u64>
    decreases s.len(),
{
    if s.len() == 0 {
        s
    } else if s.last() == handle {
        seq_without(s.drop_last(), handle)
    } else {
        seq_without(s.drop_last(), handle).push(s.last())
    }
}

/// Whether a list of handles is strictly increasing.
pub open spec fn increasing(s: Seq<u64>) -> bool {
    forall|i: int, j: int| 0 <= i < j < s.len() ==> s[i] < s[j]
}

/// Removing a handle from an increasing list leaves an increasing list of the
/// other handles, shorter by one if the handle was listed.
pub proof fn lemma_seq_without(s: Seq<u64>, handle: u64)
    requires
        increasing(s),
    ensures
        !seq_without(s, handle).contains(handle),
        forall|h: u64| h != handle ==> (seq_without(s, handle).contains(h) <==> s.contains(h)),
        increasing(seq_without(s, handle)),
        s.contains(handle) ==> seq_without(s, handle).len() + 1 == s.len(),
        !s.contains(handle) ==> seq_without(s, handle) == s,
    decreases s.len(),
{
    let r = seq_without(s, handle);
    if s.len() > 0 {
        let t = s.drop_last();
        let f = seq_without(t, handle);
        assert(increasing(t)) by {
            assert forall|i: int, j: int| 0 <= i < j < t.len() implies t[i] < t[j] by {
                assert(s[i] < s[j]);
            }
        }
        lemma_seq_without(t, handle);
        assert forall|h: u64| s.contains(h) <==> (t.contains(h) || h == s.last()) by {
            if s.contains(h) {
                let k = choose|k: int| 0 <= k < s.len() && s[k] == h;
                if k < s.len() - 1 {
                    assert(t[k] == h);
                }
            }
            if t.contains(h) {
                let k = choose|k: int| 0 <= k < t.len() && t[k] == h;
                assert(s[k] == h);
            }
            if h == s.last() {
                assert(s[s.len() - 1] == h);
            }
        }
        assert(!t.contains(s.last())) by {
            if t.contains(s.last()) {
                let k = choose|k: int| 0 <= k < t.len() && t[k] == s.last();
                assert(s[k] < s[s.len() - 1]);
            }
        }
        if s.last() == handle {
            assert(r == f);
            assert(f == t);
        } else {
            assert(r == f.push(s.last()));
            assert forall|h: u64| r.contains(h) <==> (f.contains(h) || h == s.last()) by {
                if r.contains(h) {
                    let k = choose|k: int| 0 <= k < r.len() && r[k] == h;
                    if k < f.len() {
                        assert(f[k] == h);
                    }
                }
                if f.contains(h) {
                    let k = choose|k: int| 0 <= k < f.len() && f[k] == h;
                    assert(r[k] == h);
                }
                if h == s.last() {
                    assert(r[f.len() as int] == h);
                }
            }
            assert forall|i: int, j: int| 0 <= i < j < r.len() implies r[i] < r[j] by {
                if j == f.len() {
                    assert(f.contains(f[i]));
                    assert(t.contains(f[i]));
                    let k = choose|k: int| 0 <= k < t.len() && t[k] == f[i];
                    assert(s[k] < s[s.len() - 1]);
                } else {
                    assert(f[i] < f[j]);
                }
            }
            if !s.contains(handle) {
                assert(f == t);
                assert(t.push(s.last()) =~= s);
            }
        }
    }
}

/// The observable state of a notifier.
pub struct NotifierState<T> {
    /// The payload of the first `fire`, if there was one.
    pub payload: Option<T>,
    /// The handles that have not collected the payload, oldest first.
    pub waiting: Seq<u64>,
    /// The number of handles issued so far, which is also the next handle.
    pub next: nat,
}

/// An operation on a notifier, as it appears in a history.
pub enum NotifierOp<T> {
    /// A new subscriber joins.
    Subscribe,
    /// The terminal event happens with this payload.
    Fire(T),
    /// The holder of a handle asks for the payload.
    Poll(u64),
    /// The holder of a handle gives it up.
    Unsubscribe(u64),
}

impl<T> NotifierState<T> {
    /// Handles are issued in increasing order and are listed in that order.
    pub open spec fn wf(self) -> bool {
        &&& increasing(self.waiting)
        &&& forall|i: int| 0 <= i < self.waiting.len() ==> (#[trigger] self.waiting[i]) < self.next
        &&& self.next <= u64::MAX
    }

    /// The state before anything happened.
    pub open spec fn initial() -> Self {
        NotifierState { payload: None, waiting: Seq::empty(), next: 0 }
    }

    /// Whether `handle` is subscribed and has not collected the payload.
    pub open spec fn is_waiting(self, handle: u64) -> bool {
        self.waiting.contains(handle)
    }

    /// Whether a `poll` with `handle` would hand out the payload right now.
    pub open spec fn owes(self, handle: u64) -> bool {
        self.payload is Some && self.is_waiting(handle)
    }

    /// The waiting list without `handle`.
    pub open spec fn without(self, handle: u64) -> Seq<u64> {
        seq_without(self.waiting, handle)
    }

    /// Joining issues the next handle and lists it last. Once every handle
    /// has been issued, joining fails and changes nothing.
    pub open spec fn subscribe(self) -> (Self, Option<u64>) {
        if self.next < u64::MAX {
            (
                NotifierState {
                    payload: self.payload,
                    waiting: self.waiting.push(self.next as u64),
                    next: self.next + 1,
                },
                Some(self.next as u64),
            )
        } else {
            (self, None)
        }
    }

    /// The state after `count` subscribers joined one after the other.
    pub open spec fn subscribe_many(self, count: nat) -> Self
        decreases count,
    {
        if count == 0 {
            self
        } else {
            self.subscribe_many((count - 1) as nat).subscribe().0
        }
    }

    /// The first fire stores the payload and wakes everyone waiting; a later
    /// one changes nothing and wakes no one.
    pub open spec fn fire(self, payload: T) -> (Self, Seq<u64>) {
        if self.payload is None {
            (
                NotifierState { payload: Some(payload), waiting: self.waiting, next: self.next },
                self.waiting,
            )
        } else {
            (self, Seq::empty())
        }
    }

    /// A poll hands out the payload iff it is there and the handle still waits,
    /// and then the handle waits no longer.
    pub open spec fn poll(self, handle: u64) -> (Self, Option<T>) {
        if self.owes(handle) {
            (
                NotifierState {
                    payload: self.payload,
                    waiting: self.without(handle),
                    next: self.next,
                },
                self.payload,
            )
        } else {
            (self, None)
        }
    }

    /// Giving up a handle removes it from the waiting list.
    pub open spec fn unsubscribe(self, handle: u64) -> Self {
        NotifierState { payload: self.payload, waiting: self.without(handle), next: self.next }
    }

    /// The state after one operation.
    pub open spec fn step(self, op: NotifierOp<T>) -> Self {
        match op {
            NotifierOp::Subscribe => self.subscribe().0,
            NotifierOp::Fire(p) => self.fire(p).0,
            NotifierOp::Poll(h) => self.poll(h).0,
            NotifierOp::Unsubscribe(h) => self.unsubscribe(h),
        }
    }

    /// The state after a history of operations.
    pub open spec fn run(self, ops: Seq<NotifierOp<T>>) -> Self
        decreases ops.len(),
    {
        if ops.len() == 0 {
            self
        } else {
            self.run(ops.drop_last()).step(ops.last())
        }
    }

    /// The payloads that polls with `handle` handed out during a history, in
    /// order.
    pub open spec fn delivered(self, ops: Seq<NotifierOp<T>>, handle: u64) -> Seq<T>
        decreases ops.len(),
    {
        if ops.len() == 0 {
            Seq::empty()
        } else {
            let before = self.run(ops.drop_last());
            let sofar = self.delivered(ops.drop_last(), handle);
            match ops.last() {
                NotifierOp::Poll(h) => if h == handle && before.owes(handle) {
                    sofar.push(before.payload->Some_0)
                } else {
                    sofar
                },
                _ => sofar,
            }
        }
    }
}

/// In an increasing list, removing the handle at a position is removing that
/// handle.
pub proof fn lemma_seq_without_at(s: Seq<u64>, at: int)
    requires
        increasing(s),
        0 <= at < s.len(),
    ensures
        seq_without(s, s[at]) == s.remove(at),
    decreases s.len(),
{
    let t = s.drop_last();
    assert(increasing(t)) by {
        assert forall|i: int, j: int| 0 <= i < j < t.len() implies t[i] < t[j] by {
            assert(s[i] < s[j]);
        }
    }
    if at == s.len() - 1 {
        assert(!t.contains(s[at])) by {
            if t.contains(s[at]) {
                let k = choose|k: int| 0 <= k < t.len() && t[k] == s[at];
                assert(s[k] < s[at]);
            }
        }
        lemma_seq_without(t, s[at]);
        assert(s.remove(at) =~= t);
    } else {
        assert(s[at] < s[s.len() - 1]);
        lemma_seq_without_at(t, at);
        assert(t[at] == s[at]);
        assert(s.remove(at) =~= t.remove(at).push(s.last()));
    }
}

/// Every operation keeps the state well formed.
pub proof fn lemma_step_wf<T>(s: NotifierState<T>, op: NotifierOp<T>)
    requires
        s.wf(),
    ensures
        s.step(op).wf(),
        s.step(op).next >= s.next,
        s.payload is Some ==> s.step(op).payload == s.payload,
{
    match op {
        NotifierOp::Subscribe => {
            if s.next < u64::MAX {
                let t = s.subscribe().0;
                assert forall|i: int, j: int| 0 <= i < j < t.waiting.len() implies t.waiting[i]
                    < t.waiting[j] by {
                    if j == s.waiting.len() {
                        assert(s.waiting[i] < s.next);
                    } else {
                        assert(s.waiting[i] < s.waiting[j]);
                    }
                }
                assert forall|i: int| 0 <= i < t.waiting.len() implies (#[trigger] t.waiting[i])
                    < t.next by {
                    if i < s.waiting.len() {
                        assert(s.waiting[i] < s.next);
                    }
                }
            }
        },
        NotifierOp::Fire(p) => {},
        NotifierOp::Poll(h) => {
            lemma_seq_without(s.waiting, h);
            lemma_without_bounded(s, h);
        },
        NotifierOp::Unsubscribe(h) => {
            lemma_seq_without(s.waiting, h);
            lemma_without_bounded(s, h);
        },
    }
}

/// What is left after removing a handle was issued before.
proof fn lemma_without_bounded<T>(s: NotifierState<T>, handle: u64)
    requires
        s.wf(),
    ensures
        forall|i: int| 0 <= i < s.without(handle).len() ==> (#[trigger] s.without(handle)[i]) < s.next,
{
    lemma_seq_without(s.waiting, handle);
    assert forall|i: int| 0 <= i < s.without(handle).len() implies (#[trigger] s.without(
        handle,
    )[i]) < s.next by {
        let h = s.without(handle)[i];
        assert(s.without(handle).contains(h));
        assert(s.waiting.contains(h));
        let k = choose|k: int| 0 <= k < s.waiting.len() && s.waiting[k] == h;
        assert(s.waiting[k] < s.next);
    }
}

/// Every history keeps the state well formed, and a payload once stored stays.
pub proof fn lemma_run_wf<T>(s: NotifierState<T>, ops: Seq<NotifierOp<T>>)
    requires
        s.wf(),
    ensures
        s.run(ops).wf(),
        s.run(ops).next >= s.next,
        s.payload is Some ==> s.run(ops).payload == s.payload,
    decreases ops.len(),
{
    if ops.len() > 0 {
        lemma_run_wf(s, ops.drop_last());
        lemma_step_wf(s.run(ops.drop_last()), ops.last());
    }
}

/// Idempotence of `fire`: after the first fire, a second one changes nothing
/// and wakes no one.
pub proof fn law_fire_idempotent<T>(s: NotifierState<T>, first: T, second: T)
    ensures
        s.fire(first).0.fire(second) == (s.fire(first).0, Seq::<u64>::empty()),
{
}

/// At most once: over any history, the polls of one handle hand out at most
/// one payload, it is the stored payload, and a handle that collected is
/// never listed again.
pub proof fn law_delivered_at_most_once<T>(
    s: NotifierState<T>,
    ops: Seq<NotifierOp<T>>,
    handle: u64,
)
    requires
        s.wf(),
    ensures
        s.delivered(ops, handle).len() <= 1,
        s.delivered(ops, handle).len() == 1 ==> {
            &&& !s.run(ops).is_waiting(handle)
            &&& handle < s.run(ops).next
            &&& s.run(ops).payload == Some(s.delivered(ops, handle)[0])
        },
    decreases ops.len(),
{
    if ops.len() > 0 {
        let before = s.run(ops.drop_last());
        let sofar = s.delivered(ops.drop_last(), handle);
        law_delivered_at_most_once(s, ops.drop_last(), handle);
        lemma_run_wf(s, ops.drop_last());
        lemma_step_wf(before, ops.last());
        match ops.last() {
            NotifierOp::Subscribe => {
                if sofar.len() == 1 && before.next < u64::MAX {
                    let after = before.subscribe().0;
                    if after.waiting.contains(handle) {
                        let k = choose|k: int| 0 <= k < after.waiting.len() && after.waiting[k] == handle;
                        if k < before.waiting.len() {
                            assert(before.waiting[k] == handle);
                        }
                    }
                }
            },
            NotifierOp::Fire(p) => {},
            NotifierOp::Poll(h) => {
                lemma_seq_without(before.waiting, h);
                if h == handle && before.owes(handle) {
                    let k = choose|k: int| 0 <= k < before.waiting.len() && before.waiting[k] == handle;
                    assert(before.waiting[k] < before.next);
                }
            },
            NotifierOp::Unsubscribe(h) => {
                lemma_seq_without(before.waiting, h);
            },
        }
    }
}

/// Whether a history neither polls with `handle` nor gives it up.
pub open spec fn leaves_alone<T>(ops: Seq<NotifierOp<T>>, handle: u64) -> bool {
    forall|k: int|
        0 <= k < ops.len() ==> ops[k] != NotifierOp::<T>::Poll(handle) && ops[k]
            != NotifierOp::<T>::Unsubscribe(handle)
}

/// A subscriber that has not polled stays listed, whatever the others do, and
/// nothing is handed out to it meanwhile.
pub proof fn lemma_untouched_stays<T>(s: NotifierState<T>, ops: Seq<NotifierOp<T>>, handle: u64)
    requires
        s.wf(),
        s.is_waiting(handle),
        leaves_alone(ops, handle),
    ensures
        s.run(ops).is_waiting(handle),
        s.delivered(ops, handle) == Seq::<T>::empty(),
    decreases ops.len(),
{
    if ops.len() > 0 {
        let before = s.run(ops.drop_last());
        assert(leaves_alone(ops.drop_last(), handle)) by {
            assert forall|k: int| 0 <= k < ops.drop_last().len() implies ops.drop_last()[k]
                != NotifierOp::<T>::Poll(handle) && ops.drop_last()[k]
                != NotifierOp::<T>::Unsubscribe(handle) by {
                assert(ops.drop_last()[k] == ops[k]);
            }
        }
        lemma_untouched_stays(s, ops.drop_last(), handle);
        lemma_run_wf(s, ops.drop_last());
        assert(ops.last() == ops[ops.len() - 1]);
        let k = choose|k: int| 0 <= k < before.waiting.len() && before.waiting[k] == handle;
        match ops.last() {
            NotifierOp::Subscribe => {
                if before.next < u64::MAX {
                    assert(before.subscribe().0.waiting[k] == handle);
                }
            },
            NotifierOp::Fire(p) => {},
            NotifierOp::Poll(h) => {
                lemma_seq_without(before.waiting, h);
            },
            NotifierOp::Unsubscribe(h) => {
                lemma_seq_without(before.waiting, h);
            },
        }
    }
}

/// Exactly once: a subscriber that polls at some point after the fire, having
/// left its handle alone until then, is handed the payload exactly once over
/// the whole history, however the history goes on.
pub proof fn law_delivered_exactly_once<T>(
    s: NotifierState<T>,
    ops: Seq<NotifierOp<T>>,
    handle: u64,
    at: int,
)
    requires
        s.wf(),
        s.is_waiting(handle),
        0 <= at < ops.len(),
        ops[at] == NotifierOp::<T>::Poll(handle),
        leaves_alone(ops.take(at), handle),
        s.run(ops.take(at)).payload is Some,
    ensures
        s.delivered(ops, handle) == seq![s.run(ops.take(at)).payload->Some_0],
        s.run(ops).payload == s.run(ops.take(at)).payload,
    decreases ops.len() - at,
{
    let payload = s.run(ops.take(at)).payload->Some_0;
    if ops.len() == at + 1 {
        assert(ops.drop_last() =~= ops.take(at));
        lemma_untouched_stays(s, ops.take(at), handle);
        assert(ops.last() == ops[at]);
        assert(s.delivered(ops, handle) =~= seq![payload]);
    } else {
        let shorter = ops.drop_last();
        assert(shorter.take(at) =~= ops.take(at));
        assert(shorter[at] == ops[at]);
        law_delivered_exactly_once(s, shorter, handle, at);
        law_delivered_at_most_once(s, ops, handle);
        lemma_run_wf(s, shorter);
        lemma_step_wf(s.run(shorter), ops.last());
        let sofar = s.delivered(shorter, handle);
        assert(sofar.len() == 1);
        assert(s.delivered(ops, handle).len() >= 1);
        assert(s.delivered(ops, handle)[0] == sofar[0]);
        assert(s.delivered(ops, handle) =~= seq![payload]);
    }
}

/// Late joiners are listed after everyone who waited before, in the order in
/// which they joined.
pub proof fn lemma_subscribe_many<T>(s: NotifierState<T>, count: nat)
    requires
        s.wf(),
        s.next + count <= u64::MAX,
    ensures
        s.subscribe_many(count).wf(),
        s.subscribe_many(count).payload == s.payload,
        s.subscribe_many(count).next == s.next + count,
        s.subscribe_many(count).waiting == s.waiting + Seq::new(count, |k: int| (s.next + k) as u64),
    decreases count,
{
    let late = Seq::new(count, |k: int| (s.next + k) as u64);
    if count == 0 {
        assert(s.waiting + late =~= s.waiting);
    } else {
        let before = s.subscribe_many((count - 1) as nat);
        lemma_subscribe_many(s, (count - 1) as nat);
        lemma_step_wf(before, NotifierOp::Subscribe);
        assert(before.subscribe().0.waiting =~= s.waiting + late);
    }
}

/// The fan-out law. Firing once with some subscribers already waiting, and
/// `late` more joining after the fire, leaves every one of them owed the
/// payload: the fire names exactly the earlier ones to wake, all of them and
/// the late ones are listed, and a poll by any of them hands out the payload,
/// strikes that one from the list and leaves the claims of the others as they
/// were.
pub proof fn law_fire_reaches_all<T>(s: NotifierState<T>, payload: T, late: nat)
    requires
        s.wf(),
        s.payload is None,
        s.next + late <= u64::MAX,
    ensures
        ({
            let fired = s.fire(payload).0;
            let joined = fired.subscribe_many(late);
            &&& s.fire(payload).1 == s.waiting
            &&& joined.wf()
            &&& joined.waiting.len() == s.waiting.len() + late
            &&& joined.waiting.subrange(0, s.waiting.len() as int) == s.waiting
            &&& forall|h: u64| #[trigger]
                joined.is_waiting(h) ==> {
                    &&& joined.poll(h).1 == Some(payload)
                    &&& !joined.poll(h).0.is_waiting(h)
                    &&& joined.poll(h).0.waiting.len() + 1 == joined.waiting.len()
                    &&& forall|other: u64|
                        other != h ==> (joined.poll(h).0.owes(other) <==> joined.owes(other))
                }
        }),
{
    let fired = s.fire(payload).0;
    let joined = fired.subscribe_many(late);
    lemma_subscribe_many(fired, late);
    assert(joined.waiting.subrange(0, s.waiting.len() as int) =~= s.waiting);
    assert forall|h: u64| #[trigger] joined.is_waiting(h) implies {
        &&& joined.poll(h).1 == Some(payload)
        &&& !joined.poll(h).0.is_waiting(h)
        &&& joined.poll(h).0.waiting.len() + 1 == joined.waiting.len()
        &&& forall|other: u64|
            other != h ==> (joined.poll(h).0.owes(other) <==> joined.owes(other))
    } by {
        lemma_seq_without(joined.waiting, h);
    }
}

impl<T> NotifierState<T> {
    /// The state after the holders of `handles` polled one after the other,
    /// and what each of them was handed.
    pub open spec fn poll_each(self, handles: Seq<u64>) -> (Self, Seq<Option<T>>)
        decreases handles.len(),
    {
        if handles.len() == 0 {
            (self, Seq::empty())
        } else {
            let first = self.poll(handles[0]);
            let rest = first.0.poll_each(handles.skip(1));
            (rest.0, seq![first.1] + rest.1)
        }
    }
}

/// Everyone collects, once. After the fire, when everyone who waits polls,
/// each of them is handed the payload: as many deliveries as there are
/// waiters, none missed and each the payload of the fire. Nobody waits
/// afterwards, and whoever polls again is handed nothing.
pub proof fn law_all_collect_once<T>(s: NotifierState<T>, payload: T, again: u64)
    requires
        s.wf(),
        s.payload == Some(payload),
    ensures
        s.poll_each(s.waiting).1.len() == s.waiting.len(),
        forall|i: int|
            0 <= i < s.waiting.len() ==> (#[trigger] s.poll_each(s.waiting).1[i]) == Some(payload),
        s.poll_each(s.waiting).0.waiting.len() == 0,
        s.poll_each(s.waiting).0.payload == Some(payload),
        s.poll_each(s.waiting).0.poll(again).1 is None,
    decreases s.waiting.len(),
{
    if s.waiting.len() > 0 {
        let first = s.poll(s.waiting[0]);
        assert(s.waiting.contains(s.waiting[0]));
        lemma_seq_without_at(s.waiting, 0);
        assert(s.waiting.remove(0) =~= s.waiting.skip(1));
        assert(first.0.waiting == s.waiting.skip(1));
        lemma_step_wf(s, NotifierOp::Poll(s.waiting[0]));
        law_all_collect_once(first.0, payload, again);
        let rest = first.0.poll_each(first.0.waiting);
        let all = s.poll_each(s.waiting);
        assert(all.1 == seq![first.1] + rest.1);
        assert forall|i: int| 0 <= i < s.waiting.len() implies (#[trigger] all.1[i]) == Some(
            payload,
        ) by {
            if i > 0 {
                assert(all.1[i] == rest.1[i - 1]);
            }
        }
    }
}

/// A one-shot signal with a payload of type `T`.
pub struct Notifier<T> {
    payload: Option<T>,
    waiting: Vec<u64>,
    next: u64,
}

impl<T> View for Notifier<T> {
    type V = NotifierState<T>;

    closed spec fn view(&self) -> NotifierState<T> {
        NotifierState { payload: self.payload, waiting: self.waiting@, next: self.next as nat }
    }
}

impl<T> Notifier<T> {
    #[verifier::type_invariant]
    spec fn inv(self) -> bool {
        self@.wf()
    }
}

impl<T: Copy> Notifier<T> {
    /// A notifier that has not fired and has no subscribers.
    pub fn new() -> (b: Self)
        ensures
            b@ == NotifierState::<T>::initial(),
            b@.wf(),
    {
        Notifier { payload: None, waiting: Vec::new(), next: 0 }
    }

    /// Join the subscribers. The handle returned collects the payload with
    /// `poll`, whether the notifier fires later or has fired already.
    pub fn subscribe(&mut self) -> (handle: Option<u64>)
        ensures
            (final(self)@, handle) == old(self)@.subscribe(),
            final(self)@.wf(),
    {
        proof {
            use_type_invariant(&*self);
        }
        if self.next == u64::MAX {
            return None;
        }
        let handle: u64 = self.next;
        let ghost before = self@;
        assert(before.wf());
        let mut waiting: Vec<u64> = Vec::new();
        std::mem::swap(&mut waiting, &mut self.waiting);
        assert(waiting@ == before.waiting);
        waiting.push(handle);
        assert(increasing(waiting@)) by {
            assert forall|i: int, j: int| 0 <= i < j < waiting@.len() implies waiting@[i]
                < waiting@[j] by {
                if j == before.waiting.len() {
                    assert(before.waiting[i] < before.next);
                } else {
                    assert(before.waiting[i] < before.waiting[j]);
                }
            }
        }
        assert(forall|i: int| 0 <= i < waiting@.len() ==> (#[trigger] waiting@[i]) < handle + 1) by {
            assert forall|i: int| 0 <= i < waiting@.len() implies (#[trigger] waiting@[i]) < handle
                + 1 by {
                if i < before.waiting.len() {
                    assert(before.waiting[i] < before.next);
                }
            }
        }
        *self = Notifier { payload: self.payload, waiting, next: handle + 1 };
        Some(handle)
    }

    /// Signal the terminal event. The first call stores `payload` and returns
    /// the handles to wake, oldest first; every later call is a no-op.
    pub fn fire(&mut self, payload: T) -> (woken: Vec<u64>)
        ensures
            (final(self)@, woken@) == old(self)@.fire(payload),
            final(self)@.wf(),
    {
        proof {
            use_type_invariant(&*self);
        }
        if self.payload.is_none() {
            assert(self@.wf());
            let woken = self.waiting.clone();
            assert(woken@ =~= self.waiting@);
            self.payload = Some(payload);
            woken
        } else {
            Vec::new()
        }
    }

    /// Collect the payload. Returns it the first time a subscribed handle
    /// polls after the notifier fired, and `None` before the fire, for a
    /// handle that already collected, and for a handle that is not subscribed.
    pub fn poll(&mut self, handle: u64) -> (r: Option<T>)
        ensures
            (final(self)@, r) == old(self)@.poll(handle),
            final(self)@.wf(),
    {
        proof {
            use_type_invariant(&*self);
        }
        if self.payload.is_none() {
            return None;
        }
        match self.position(handle) {
            Some(at) => {
                proof {
                    lemma_seq_without_at(self.waiting@, at as int);
                    lemma_seq_without(self.waiting@, handle);
                }
                let mut waiting: Vec<u64> = Vec::new();
                std::mem::swap(&mut waiting, &mut self.waiting);
                waiting.remove(at);
                *self = Notifier { payload: self.payload, waiting, next: self.next };
                self.payload
            },
            None => None,
        }
    }

    /// Give up a handle: it will not be woken and collects nothing.
    pub fn unsubscribe(&mut self, handle: u64)
        ensures
            final(self)@ == old(self)@.unsubscribe(handle),
            final(self)@.wf(),
    {
        proof {
            use_type_invariant(&*self);
            lemma_seq_without(self.waiting@, handle);
        }
        match self.position(handle) {
            Some(at) => {
                proof {
                    lemma_seq_without_at(self.waiting@, at as int);
                }
                let mut waiting: Vec<u64> = Vec::new();
                std::mem::swap(&mut waiting, &mut self.waiting);
                waiting.remove(at);
                *self = Notifier { payload: self.payload, waiting, next: self.next };
            },
            None => {},
        }
    }

    /// Where `handle` stands in the waiting list.
    fn position(&self, handle: u64) -> (r: Option<usize>)
        ensures
            match r {
                Some(at) => at < self@.waiting.len() && self@.waiting[at as int] == handle,
                None => !self@.waiting.contains(handle),
            },
    {
        let mut i: usize = 0;
        while i < self.waiting.len()
            invariant
                i <= self.waiting.len(),
                forall|k: int| 0 <= k < i ==> self.waiting@[k] != handle,
            decreases self.waiting.len() - i,
        {
            if self.waiting[i] == handle {
                return Some(i);
            }
            i += 1;
        }
        None
    }

    /// Whether the notifier has fired.
    pub fn is_fired(&self) -> (fired: bool)
        ensures
            fired == (self@.payload is Some),
    {
        self.payload.is_some()
    }

    /// The payload of the first fire, if there was one.
    pub fn payload(&self) -> (p: Option<T>)
        ensures
            p == self@.payload,
    {
        self.payload
    }

    /// The number of subscribers that have not collected the payload.
    pub fn waiting_count(&self) -> (n: usize)
        ensures
            n == self@.waiting.len(),
    {
        self.waiting.len()
    }
}

} // verus!
