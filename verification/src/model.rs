//! The mathematical model of a timer and the laws that hold of it.
//!
//! A timer is modelled by its clock, the set of entries that are still
//! scheduled (each with the tick at which it fires and its payload), and the
//! two monotonic counters. Every operation of the timer is described as a
//! function from one such view to the next; the laws below are proved of
//! those functions alone.

use vstd::prelude::*;
use crate::key::TimerKey;

verus! {

/// The length of the cycle of level `k` of a wheel with `n0` slots on level
/// 0 and `n` slots on each level above: `n0 * n^k`. The cycle of the topmost
/// level is the epoch of the wheel.
pub open spec fn span(n0: nat, n: nat, k: nat) -> nat
    decreases k,
{
    if k == 0 {
        n0
    } else {
        span(n0, n, (k - 1) as nat) * n
    }
}

/// The cycles are at least one tick long and grow with the level.
pub proof fn lemma_span_grows(n0: nat, n: nat, a: nat, b: nat)
    requires
        n0 >= 1,
        n >= 1,
        a <= b,
    ensures
        1 <= span(n0, n, a) <= span(n0, n, b),
    decreases b,
{
    if b == 0 {
    } else if a == b {
        lemma_span_grows(n0, n, 0, (b - 1) as nat);
        assert(span(n0, n, (b - 1) as nat) * n >= 1) by (nonlinear_arith)
            requires
                span(n0, n, (b - 1) as nat) >= 1,
                n >= 1,
        ;
    } else {
        lemma_span_grows(n0, n, a, (b - 1) as nat);
        assert(span(n0, n, (b - 1) as nat) * n >= span(n0, n, (b - 1) as nat))
            by (nonlinear_arith)
            requires
                span(n0, n, (b - 1) as nat) >= 1,
                n >= 1,
        ;
    }
}

/// One scheduled entry: the tick at which it becomes ready, and its payload.
pub struct Entry<T> {
    pub due: nat,
    pub value: T,
}

/// What a timer is, seen from outside.
pub struct TimerView<T> {
    /// The logical clock: ticks elapsed since creation.
    pub now: nat,
    /// Every entry that has been scheduled and has neither fired nor been cancelled.
    pub pending: Map<TimerKey, Entry<T>>,
    /// How many entries were ever scheduled.
    pub added: nat,
    /// How many entries have fired or have been cancelled.
    pub removed: nat,
}

impl<T> TimerView<T> {
    /// The view of a timer that was just created.
    pub open spec fn empty() -> Self {
        TimerView { now: 0, pending: Map::empty(), added: 0, removed: 0 }
    }

    /// What holds of every reachable view: the pending entries are finitely
    /// many, as many as were added and not removed; none is overdue; each
    /// was issued under a serial number below the count of additions.
    pub open spec fn inv(self) -> bool {
        &&& self.pending.dom().finite()
        &&& self.pending.len() + self.removed == self.added
        &&& forall|k: TimerKey| #[trigger]
            self.pending.contains_key(k) ==> self.pending[k].due >= self.now && k.spec_serial()
                < self.added
    }

    /// `k` has been handed out by some earlier `push`.
    pub open spec fn issued(self, k: TimerKey) -> bool {
        k.spec_serial() < self.added
    }

    /// `k` is the key that the next `push` may hand out.
    pub open spec fn fresh(self, k: TimerKey) -> bool {
        k.spec_serial() == self.added
    }

    /// `k` was handed out and its entry has fired or has been cancelled.
    pub open spec fn spent(self, k: TimerKey) -> bool {
        self.issued(k) && !self.pending.contains_key(k)
    }

    /// The tick up to which a call bounded by `bound` looks for work: the
    /// clock never runs backwards, so a bound in the past means "now".
    pub open spec fn horizon(self, bound: nat) -> nat {
        if bound >= self.now {
            bound
        } else {
            self.now
        }
    }

    /// Some pending entry fires at or before tick `t`.
    pub open spec fn due_by(self, t: nat) -> bool {
        exists|k: TimerKey| #[trigger] self.pending.contains_key(k) && self.pending[k].due <= t
    }

    /// `k` is pending and no pending entry fires before it.
    pub open spec fn is_earliest(self, k: TimerKey) -> bool {
        &&& self.pending.contains_key(k)
        &&& forall|k2: TimerKey| #[trigger]
            self.pending.contains_key(k2) ==> self.pending[k].due <= self.pending[k2].due
    }

    /// A call that looks for work up to tick `bound` may take `k` out: `k` is
    /// pending, no pending entry fires before it, and its tick is within the
    /// horizon of the call.
    pub open spec fn may_fire(self, bound: nat, k: TimerKey) -> bool {
        self.is_earliest(k) && self.pending[k].due <= self.horizon(bound)
    }

    /// After scheduling `value` under key `k` to fire `timeout` ticks from now.
    pub open spec fn pushed(self, k: TimerKey, timeout: nat, value: T) -> Self {
        TimerView {
            pending: self.pending.insert(k, Entry { due: self.now + timeout, value }),
            added: self.added + 1,
            ..self
        }
    }

    /// After the clock has moved to the tick of entry `k` and `k` has been taken out.
    pub open spec fn fired(self, k: TimerKey) -> Self {
        TimerView {
            now: self.pending[k].due,
            pending: self.pending.remove(k),
            removed: self.removed + 1,
            ..self
        }
    }

    /// After the clock has moved to the tick of entry `k`, with `k` left in place.
    pub open spec fn reached(self, k: TimerKey) -> Self {
        TimerView { now: self.pending[k].due, ..self }
    }

    /// After the clock has moved to the horizon of `bound` without finding work.
    pub open spec fn idled(self, bound: nat) -> Self {
        TimerView { now: self.horizon(bound), ..self }
    }

    /// After entry `k` has been cancelled; nothing changes if `k` is not pending.
    pub open spec fn cancelled(self, k: TimerKey) -> Self {
        if self.pending.contains_key(k) {
            TimerView { pending: self.pending.remove(k), removed: self.removed + 1, ..self }
        } else {
            self
        }
    }

    /// After one forced tick. An entry that was ready at the old tick and
    /// was not taken out is passed over: it becomes ready again one turn of
    /// the base level (`base` ticks) later.
    pub open spec fn rolled(self, base: nat) -> Self {
        TimerView {
            now: self.now + 1,
            pending: Map::new(
                |k: TimerKey| self.pending.contains_key(k),
                |k: TimerKey|
                    if self.pending[k].due == self.now {
                        Entry { due: self.pending[k].due + base, value: self.pending[k].value }
                    } else {
                        self.pending[k]
                    },
            ),
            ..self
        }
    }

    /// One operation of the timer leads from `self` to `next`. `base` is the
    /// number of slots of the base level.
    pub open spec fn step(self, next: Self, base: nat) -> bool {
        ||| exists|k: TimerKey, timeout: nat, value: T|
            self.fresh(k) && next == #[trigger] self.pushed(k, timeout, value)
        ||| exists|k: TimerKey| next == #[trigger] self.cancelled(k)
        ||| exists|k: TimerKey| self.is_earliest(k) && next == #[trigger] self.fired(k)
        ||| exists|k: TimerKey| self.is_earliest(k) && next == #[trigger] self.reached(k)
        ||| exists|bound: nat|
            !self.due_by(self.horizon(bound)) && next == #[trigger] self.idled(bound)
        ||| next == self.rolled(base)
    }

    /// Whatever an operation of the timer may do to its view is a step.
    pub proof fn law_operations_are_steps(self, base: nat)
        ensures
            forall|k: TimerKey, timeout: nat, value: T|
                self.fresh(k) ==> self.step(#[trigger] self.pushed(k, timeout, value), base),
            forall|k: TimerKey| self.step(#[trigger] self.cancelled(k), base),
            forall|k: TimerKey, bound: nat| #[trigger]
                self.may_fire(bound, k) ==> self.step(self.fired(k), base) && self.step(
                    self.reached(k),
                    base,
                ),
            forall|bound: nat|
                !self.due_by(self.horizon(bound)) ==> self.step(#[trigger] self.idled(bound), base),
            self.step(self.rolled(base), base),
    {
    }

    /// The count of additions minus the count of removals is the number of
    /// entries that are still scheduled.
    pub proof fn law_liveness(self)
        requires
            self.inv(),
        ensures
            self.added >= self.removed,
            self.added - self.removed == self.pending.len(),
    {
    }

    /// A new timer satisfies the invariant.
    pub proof fn law_empty_inv()
        ensures
            Self::empty().inv(),
            Self::empty().pending.len() == 0,
    {
    }

    /// Every operation preserves the invariant and never turns the clock back.
    pub proof fn law_step_inv(self, next: Self, base: nat)
        requires
            self.inv(),
            self.step(next, base),
            base >= 1,
        ensures
            next.inv(),
            next.now >= self.now,
            next.added >= self.added,
            next.removed >= self.removed,
    {
        if next == self.rolled(base) {
            assert(next.pending.dom() =~= self.pending.dom());
        }
    }

    /// A pushed entry is scheduled exactly `timeout` ticks after the tick of
    /// the push, however large `timeout` is, under a key that named nothing
    /// before.
    pub proof fn law_push_schedules(self, k: TimerKey, timeout: nat, value: T)
        requires
            self.inv(),
            self.fresh(k),
        ensures
            !self.pending.contains_key(k),
            !self.issued(k),
            self.pushed(k, timeout, value).pending.contains_key(k),
            self.pushed(k, timeout, value).pending[k] == (Entry { due: self.now + timeout, value }),
            self.pushed(k, timeout, value).pending.len() == self.pending.len() + 1,
    {
    }

    /// An entry is taken out at its tick: when a call takes `k` out, the
    /// clock stands exactly at the tick of `k`, which lies between the old
    /// tick and the horizon of the call; and `k` is spent from then on.
    pub proof fn law_fires_at_its_tick(self, k: TimerKey, bound: nat)
        requires
            self.inv(),
            self.may_fire(bound, k),
        ensures
            self.fired(k).now == self.pending[k].due,
            self.now <= self.pending[k].due <= self.horizon(bound),
            !self.fired(k).pending.contains_key(k),
            self.fired(k).spent(k),
            self.fired(k).inv(),
    {
        assert(self.step(self.fired(k), 1));
        self.law_step_inv(self.fired(k), 1);
    }

    /// An entry is not taken out before its tick: while the horizon of a
    /// call lies before the tick of `k`, the call cannot take `k` out, and
    /// `k` stays scheduled as it is whatever the call does.
    pub proof fn law_not_before(self, k: TimerKey, bound: nat)
        requires
            self.inv(),
            self.pending.contains_key(k),
            self.horizon(bound) < self.pending[k].due,
        ensures
            !self.may_fire(bound, k),
            forall|other: TimerKey| #[trigger]
                self.may_fire(bound, other) ==> self.fired(other).pending.contains_key(k)
                    && self.fired(other).pending[k] == self.pending[k],
            self.idled(bound).pending.contains_key(k),
            self.idled(bound).pending[k] == self.pending[k],
    {
    }

    /// An entry fires as soon as its tick is within the horizon: then some
    /// pending entry is due, and whichever entry is taken out first fires no
    /// later than `k` does.
    pub proof fn law_due_is_found(self, k: TimerKey, first: TimerKey, bound: nat)
        requires
            self.inv(),
            self.pending.contains_key(k),
            self.pending[k].due <= self.horizon(bound),
            self.is_earliest(first),
        ensures
            self.due_by(self.horizon(bound)),
            self.may_fire(bound, first),
            self.pending[first].due <= self.pending[k].due,
            self.fired(first).now <= self.horizon(bound),
            first != k ==> self.fired(first).pending.contains_key(k) && self.fired(
                first,
            ).pending[k] == self.pending[k],
    {
    }

    /// Until it fires or is cancelled, an entry keeps its payload and its
    /// tick through every operation, with one exception: a forced tick at
    /// the very tick of the entry passes it over by one turn of the base level.
    pub proof fn law_pending_is_stable(self, next: Self, base: nat, k: TimerKey)
        requires
            self.inv(),
            self.step(next, base),
            self.pending.contains_key(k),
        ensures
            next.pending.contains_key(k) ==> {
                &&& next.pending[k].value == self.pending[k].value
                &&& next.pending[k].due == self.pending[k].due || (next == self.rolled(base)
                    && self.pending[k].due == self.now && next.pending[k].due == self.now + base)
            },
            !next.pending.contains_key(k) ==> next == self.cancelled(k) || (next == self.fired(k)
                && next.now == self.pending[k].due),
    {
    }

    /// A key whose entry has fired or has been cancelled names nothing ever
    /// again: no operation brings it back.
    pub proof fn law_spent_stays_spent(self, next: Self, base: nat, k: TimerKey)
        requires
            self.inv(),
            self.step(next, base),
            self.spent(k),
        ensures
            next.spent(k),
    {
    }

    /// Cancelling removes the entry, and cancelling again changes nothing.
    pub proof fn law_cancel(self, k: TimerKey)
        requires
            self.inv(),
            self.pending.contains_key(k),
        ensures
            !self.cancelled(k).pending.contains_key(k),
            self.cancelled(k).spent(k),
            self.cancelled(k).pending.len() + 1 == self.pending.len(),
            self.cancelled(k).cancelled(k) == self.cancelled(k),
            forall|k2: TimerKey|
                k2 != k && #[trigger] self.pending.contains_key(k2) ==> self.cancelled(
                    k,
                ).pending.contains_key(k2) && self.cancelled(k).pending[k2] == self.pending[k2],
    {
    }

    /// Once nothing is due within a horizon, asking again finds nothing and
    /// changes nothing, until the bound grows or a new entry is pushed.
    pub proof fn law_drained_stays_drained(self, bound: nat)
        requires
            self.inv(),
            !self.due_by(self.horizon(bound)),
        ensures
            !self.idled(bound).due_by(self.idled(bound).horizon(bound)),
            self.idled(bound).idled(bound) == self.idled(bound),
            self.idled(bound).inv(),
    {
        let v = self.idled(bound);
        assert(v.horizon(bound) == self.horizon(bound));
        assert forall|k: TimerKey| #[trigger] v.pending.contains_key(k) implies v.pending[k].due
            >= v.now by {
            if self.pending[k].due <= self.horizon(bound) {
                assert(self.due_by(self.horizon(bound)));
            }
        }
    }
}

} // verus!
