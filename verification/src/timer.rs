//! The timer: it decides for each entry between wheel and heap, advances the
//! clock, and moves entries from the heap into the wheel when an epoch ends.

use vstd::prelude::*;
use crate::arena::{Arena, Location};
use crate::heap::{Heap, HeapEntry};
use crate::key::TimerKey;
use crate::model::{span, TimerView};
use crate::wheel::Wheel;

verus! {

/// A cancellable timer.
///
/// `N0` is the number of slots of the base level of the wheel, `N` the number
/// of slots of each higher level and `L` the number of higher levels. A delay
/// below `N0 * N^L` ticks is kept in the wheel, a longer one in the heap until
/// the epoch comes in which it is due. Where an entry is kept makes no
/// difference to when it fires.
///
/// Every operation asks for a well-formed timer and leaves it well formed.
/// A timer that `new` has made is well formed if its dimensions are valid,
/// which `dimensions_are_valid` tells. Two operations have a limit of the
/// machine as a further condition: `push` and `push_time` ask that the count
/// of additions can still grow, and `roll` that the clock can.
pub struct Timer<T, const N0: usize, const N: usize, const L: usize> {
    arena: Arena<T>,
    wheel: Wheel<N0, N, L>,
    heap: Heap,
    add_count: usize,
    remove_count: usize,
    roll_count: u64,
    model: Ghost<TimerView<T>>,
}

/// How many ticks from now the entry in cell `j` is due.
pub(crate) open spec fn rem_of<T>(arena: &Arena<T>, view: TimerView<T>, j: int) -> int {
    view.pending[arena.key_at(j)].due - view.now
}

impl<T, const N0: usize, const N: usize, const L: usize> View for Timer<T, N0, N, L> {
    type V = TimerView<T>;

    /// The clock, the scheduled entries and the counters.
    closed spec fn view(&self) -> TimerView<T> {
        self.model@
    }
}

impl<T, const N0: usize, const N: usize, const L: usize> Timer<T, N0, N, L> {
    /// The dimensions describe a wheel: every level has at least one slot,
    /// and the length of the epoch, `N0 * N^L`, fits the machine word.
    pub open spec fn valid_dimensions() -> bool {
        &&& N0 >= 1
        &&& N >= 1
        &&& L + 2 <= usize::MAX
        &&& span(N0 as nat, N as nat, L as nat) <= usize::MAX
    }

    /// The occupied cells other than `loose` that are tagged as being in the wheel.
    spec fn wheel_set(&self, loose: int) -> Set<int> {
        Set::new(
            |j: int|
                j != loose && self.arena.occupied(j) && self.arena.node(j).location is Wheel,
        )
    }

    /// The occupied cells other than `loose` that are tagged as being in the heap.
    spec fn heap_set(&self, loose: int) -> Set<int> {
        Set::new(
            |j: int| j != loose && self.arena.occupied(j) && self.arena.node(j).location is Heap,
        )
    }

    /// The delay of each cell.
    spec fn rem(&self) -> spec_fn(int) -> int {
        |j: int| rem_of(&self.arena, self.model@, j)
    }

    /// What is asked of a heap element: its tick is the fire time of its
    /// entry counted from the start of the epoch, and, between operations,
    /// it lies beyond the present epoch.
    spec fn good(&self, strict: bool) -> spec_fn(HeapEntry) -> bool {
        |e: HeapEntry|
            (strict ==> e.tick >= self.wheel.epoch()) && e.tick == self.wheel.pos + rem_of(
                &self.arena,
                self.model@,
                e.idx as int,
            )
    }

    /// The scheduled entries of the model are the entries of the arena.
    spec fn synced(&self) -> bool {
        &&& forall|key: TimerKey| #[trigger]
            self.model@.pending.contains_key(key) ==> self.arena.holds(key)
                && self.model@.pending[key].value == self.arena.node(key.index as int).el
        &&& forall|key: TimerKey| #[trigger]
            self.arena.holds(key) ==> self.model@.pending.contains_key(key)
    }

    /// The representation invariant. Every entry of the arena other than the
    /// one in cell `loose` is in the container that its place tag names, at
    /// the place that the tag names, and that place is the one in which an
    /// entry with its fire time belongs.
    spec fn inv(&self, strict: bool, loose: int) -> bool {
        &&& self.arena.wf()
        &&& self.wheel.tracks(&self.arena, self.wheel_set(loose))
        &&& self.wheel.timed(&self.arena, self.wheel_set(loose), self.rem())
        &&& self.heap.tracks(&self.arena, self.heap_set(loose))
        &&& self.heap.ordered()
        &&& self.heap.all_good(self.good(strict))
        &&& self.model@.inv()
        &&& self.synced()
        &&& self.add_count == self.model@.added
        &&& self.arena.issued == self.add_count
        &&& self.remove_count == self.model@.removed
        &&& self.roll_count == self.model@.now
    }

    /// The timer is well formed.
    pub closed spec fn wf(&self) -> bool {
        self.inv(true, -1)
    }

    /// The view of a well-formed timer satisfies the invariant of the model,
    /// and its counters fit their machine types.
    pub proof fn lemma_wf(&self)
        requires
            self.wf(),
        ensures
            self@.inv(),
            self@.added <= usize::MAX,
            self@.removed <= self@.added,
            self@.now <= u64::MAX,
    {
    }

    /// The null key names no scheduled entry.
    pub proof fn law_null_names_nothing(&self)
        requires
            self.wf(),
        ensures
            !self@.pending.contains_key(TimerKey::null()),
    {
        TimerKey::lemma_null_serial();
    }

    /// The number of scheduled entries is the count of additions minus the
    /// count of removals.
    pub proof fn law_liveness(&self)
        requires
            self.wf(),
        ensures
            self@.pending.dom().finite(),
            self@.added - self@.removed == self@.pending.len(),
    {
    }

    /// Tells whether the dimensions are valid. A timer is of use only if
    /// they are.
    pub fn dimensions_are_valid() -> (b: bool)
        ensures
            b == Self::valid_dimensions(),
    {
        Wheel::<N0, N, L>::widths().is_some()
    }

    /// A timer without entries, at tick 0. It is well formed if and only if
    /// the dimensions are valid.
    pub fn new() -> (t: Self)
        ensures
            t.wf() <==> Self::valid_dimensions(),
            t.wf() ==> t@ == TimerView::<T>::empty(),
    {
        let arena: Arena<T> = Arena::new();
        let heap = Heap::new();
        match Wheel::<N0, N, L>::new() {
            Some(wheel) => {
                let t = Timer {
                    arena,
                    wheel,
                    heap,
                    add_count: 0,
                    remove_count: 0,
                    roll_count: 0,
                    model: Ghost(TimerView::empty()),
                };
                proof {
                    assert(t.wheel_set(-1) =~= Set::empty());
                    assert(t.heap_set(-1) =~= Set::empty());
                    t.wheel.lemma_vacant_tracks(&t.arena);
                    assert(t.model@.pending.dom() =~= Set::empty());
                }
                t
            },
            None => {
                Timer {
                    arena,
                    wheel: Wheel::hollow(),
                    heap,
                    add_count: 0,
                    remove_count: 0,
                    roll_count: 0,
                    model: Ghost(TimerView::empty()),
                }
            },
        }
    }

    /// The number of entries that were ever scheduled.
    pub fn add_count(&self) -> (n: usize)
        ensures
            self.wf() ==> n == self@.added,
    {
        self.add_count
    }

    /// The number of entries that have fired or have been cancelled.
    pub fn remove_count(&self) -> (n: usize)
        ensures
            self.wf() ==> n == self@.removed,
    {
        self.remove_count
    }

    /// The logical clock: the number of ticks since the timer was created.
    pub fn roll_count(&self) -> (n: u64)
        ensures
            self.wf() ==> n == self@.now,
    {
        self.roll_count
    }

    /// Stores a new entry that is due `delay` ticks from now, in no container yet.
    fn enroll(
        &mut self,
        el: T,
        Ghost(delay): Ghost<nat>,
        Ghost(strict): Ghost<bool>,
    ) -> (idx: usize)
        requires
            old(self).inv(strict, -1),
            old(self).add_count < usize::MAX,
        ensures
            final(self).inv(strict, idx as int),
            final(self).arena.occupied(idx as int),
            final(self).arena.key_at(idx as int).serial == old(self).add_count,
            final(self).arena.key_at(idx as int).index == idx,
            final(self)@ == old(self)@.pushed(final(self).arena.key_at(idx as int), delay, el),
            rem_of(&final(self).arena, final(self).model@, idx as int) == delay,
            final(self).wheel == old(self).wheel,
            final(self).heap == old(self).heap,
    {
        let idx = self.arena.insert(el, 0, Location::Heap(0));
        self.add_count = self.add_count + 1;
        let ghost key = self.arena.key_at(idx as int);
        proof {
            self.model = Ghost(old(self).model@.pushed(key, delay, el));
            let a0 = &old(self).arena;
            let a1 = &self.arena;
            assert(!old(self).model@.pending.contains_key(key));
            assert(self.wheel_set(idx as int) =~= old(self).wheel_set(-1)) by {
                assert forall|j: int| j != idx implies #[trigger] a1.slot(j) == a0.slot(j) by {}
            }
            assert(self.heap_set(idx as int) =~= old(self).heap_set(-1)) by {
                assert forall|j: int| j != idx implies #[trigger] a1.slot(j) == a0.slot(j) by {}
            }
            assert forall|j: int|
                j != idx && a0.occupied(j) implies #[trigger] rem_of(a1, self.model@, j) == rem_of(
                a0,
                old(self).model@,
                j,
            ) by {
                assert(a1.slot(j) == a0.slot(j));
                a0.lemma_index_fits(j);
                assert(a1.key_at(j) != key);
            }
            let mw = old(self).wheel_set(-1);
            let mh = old(self).heap_set(-1);
            assert forall|j: int| mw.contains(j) implies #[trigger] a1.slot(j) == a0.slot(j) by {}
            assert forall|j: int| mh.contains(j) implies #[trigger] a1.slot(j) == a0.slot(j) by {}
            self.wheel.lemma_tracks_frame(a0, a1, mw);
            self.heap.lemma_tracks_frame(&self.heap, a0, a1, mh);
            assert forall|j: int| #[trigger]
                mw.contains(j) implies mw.contains(j) && a1.node(j).location == a0.node(j).location
                && a1.node(j).timeout == a0.node(j).timeout && (self.rem())(j) == (old(
                self,
            ).rem())(j) by {
                if mw.contains(j) {
                    assert(a1.slot(j) == a0.slot(j));
                    assert(rem_of(a1, self.model@, j) == rem_of(a0, old(self).model@, j));
                }
            }
            old(self).wheel.lemma_timed_carry(
                &self.wheel,
                a0,
                a1,
                mw,
                mw,
                old(self).rem(),
                self.rem(),
            );
            assert forall|p: int|
                0 <= p < self.heap.entries@.len() && (old(self).good(strict))(
                    #[trigger] self.heap.entries@[p],
                ) implies (self.good(strict))(self.heap.entries@[p]) by {
                old(self).heap.lemma_member_position(a0, mh, p);
                let j = self.heap.cell(p);
                assert(rem_of(a1, self.model@, j) == rem_of(a0, old(self).model@, j));
            }
            old(self).heap.lemma_good_carry(&self.heap, old(self).good(strict), self.good(strict));
            assert forall|k2: TimerKey| #[trigger]
                self.model@.pending.contains_key(k2) implies a1.holds(k2)
                && self.model@.pending[k2].value == a1.node(k2.index as int).el by {
                if k2 != key {
                    assert(old(self).model@.pending.contains_key(k2));
                    assert(a0.holds(k2));
                    assert(a1.slot(k2.index as int) == a0.slot(k2.index as int));
                }
            }
            assert forall|k2: TimerKey| #[trigger] a1.holds(k2) implies self.model@.pending.contains_key(
                k2,
            ) by {
                if k2.index != idx {
                    assert(a1.slot(k2.index as int) == a0.slot(k2.index as int));
                    assert(a0.holds(k2));
                }
            }
            key.lemma_serial();
            old(self).model@.law_push_schedules(key, delay, el);
        }
        idx
    }

    /// The delays do not depend on links and place tags.
    proof fn lemma_rem_same(before: &Self, after: &Self, j: int)
        requires
            after.model@ == before.model@,
            before.arena.occupied(j),
            after.arena.occupied(j),
            after.arena.node(j).serial == before.arena.node(j).serial,
        ensures
            rem_of(&after.arena, after.model@, j) == rem_of(&before.arena, before.model@, j),
            (after.rem())(j) == (before.rem())(j),
            after.arena.key_at(j) == before.arena.key_at(j),
    {
    }

    /// What an operation of the wheel on cell `idx` leaves as it was.
    proof fn lemma_wheel_op_frame(before: &Self, after: &Self, idx: int, strict: bool, l0: int, l1: int)
        requires
            before.arena.wf(),
            before.heap.tracks(&before.arena, before.heap_set(l0)),
            before.heap.all_good(before.good(strict)),
            before.synced(),
            before.arena.relinked(&after.arena, idx),
            after.heap == before.heap,
            after.model@ == before.model@,
            after.wheel.unit@ == before.wheel.unit@,
            after.wheel.pos == before.wheel.pos,
            before.arena.occupied(idx),
            l0 == idx || (l0 == -1 && before.arena.node(idx).location is Wheel),
            l1 == idx || (l1 == -1 && after.arena.node(idx).location is Wheel),
        ensures
            after.heap.tracks(&after.arena, after.heap_set(l1)),
            after.heap.all_good(after.good(strict)),
            after.synced(),
            after.heap_set(l1) == before.heap_set(l0),
    {
        let a0 = &before.arena;
        let a1 = &after.arena;
        let mh = before.heap_set(l0);
        assert forall|j: int| mh.contains(j) implies #[trigger] a1.slot(j) == a0.slot(j) by {
            assert(a0.kept_links(a1, idx, j));
        }
        assert(after.heap_set(l1) =~= mh) by {
            assert forall|j: int| after.heap_set(l1).contains(j) == mh.contains(j) by {
                assert(a0.kept_links(a1, idx, j));
            }
        }
        before.heap.lemma_tracks_frame(&after.heap, a0, a1, mh);
        assert forall|p: int|
            0 <= p < before.heap.entries@.len() && (before.good(strict))(
                #[trigger] before.heap.entries@[p],
            ) implies (after.good(strict))(before.heap.entries@[p]) by {
            before.heap.lemma_member_position(a0, mh, p);
            let j = before.heap.cell(p);
            assert(a0.kept_links(a1, idx, j));
            Self::lemma_rem_same(before, after, j);
        }
        before.heap.lemma_good_carry(&after.heap, before.good(strict), after.good(strict));
        assert forall|key: TimerKey| #[trigger]
            after.model@.pending.contains_key(key) implies a1.holds(key)
            && after.model@.pending[key].value == a1.node(key.index as int).el by {
            assert(a0.holds(key));
            assert(a0.kept_links(a1, idx, key.index as int));
        }
        assert forall|key: TimerKey| #[trigger] a1.holds(key) implies after.model@.pending.contains_key(
            key,
        ) by {
            assert(a0.kept_links(a1, idx, key.index as int));
            assert(a0.holds(key));
        }
    }

    /// What an operation of the heap on cell `idx` leaves as it was.
    proof fn lemma_heap_op_frame(
        before: &Self,
        after: &Self,
        idx: int,
        l0: int,
        l1: int,
        who: Set<int>,
    )
        requires
            before.arena.wf(),
            before.wheel.tracks(&before.arena, before.wheel_set(l0)),
            before.wheel.timed(&before.arena, before.wheel_set(l0), before.rem()),
            before.heap.tracks(&before.arena, before.heap_set(l0)),
            before.synced(),
            before.arena.relocated(&after.arena, who),
            after.heap.tracks(&after.arena, who),
            after.wheel == before.wheel,
            after.model@ == before.model@,
            before.arena.occupied(idx),
            (l0 == idx && l1 == -1 && who == before.heap_set(l0).insert(idx)) || (l0 == -1 && l1
                == idx && before.arena.node(idx).location is Heap && who == before.heap_set(
                l0,
            ).remove(idx)),
        ensures
            after.wheel.tracks(&after.arena, after.wheel_set(l1)),
            after.wheel.timed(&after.arena, after.wheel_set(l1), after.rem()),
            after.synced(),
            after.heap_set(l1) == who,
            after.arena.slot(idx) == before.arena.slot(idx) || l1 == -1,
    {
        let a0 = &before.arena;
        let a1 = &after.arena;
        let mw = before.wheel_set(l0);
        assert forall|j: int| mw.contains(j) implies #[trigger] a1.slot(j) == a0.slot(j) by {
            assert(a0.kept(a1, who, j));
        }
        assert(after.wheel_set(l1) =~= mw) by {
            assert forall|j: int| after.wheel_set(l1).contains(j) == mw.contains(j) by {
                assert(a0.kept(a1, who, j));
                if who.contains(j) {
                    assert(after.heap.at(a1, j));
                    if j != idx {
                        assert(before.heap_set(l0).contains(j));
                    }
                }
            }
        }
        assert(after.heap_set(l1) =~= who) by {
            assert forall|j: int| after.heap_set(l1).contains(j) == who.contains(j) by {
                assert(a0.kept(a1, who, j));
                if who.contains(j) {
                    assert(after.heap.at(a1, j));
                }
            }
        }
        before.wheel.lemma_tracks_frame(a0, a1, mw);
        assert forall|j: int| #[trigger]
            mw.contains(j) implies mw.contains(j) && a1.node(j).location == a0.node(j).location
            && a1.node(j).timeout == a0.node(j).timeout && (after.rem())(j) == (before.rem())(
            j,
        ) by {
            if mw.contains(j) {
                assert(a1.slot(j) == a0.slot(j));
                Self::lemma_rem_same(before, after, j);
            }
        }
        before.wheel.lemma_timed_carry(
            &after.wheel,
            a0,
            a1,
            mw,
            mw,
            before.rem(),
            after.rem(),
        );
        assert forall|key: TimerKey| #[trigger]
            after.model@.pending.contains_key(key) implies a1.holds(key)
            && after.model@.pending[key].value == a1.node(key.index as int).el by {
            assert(a0.holds(key));
            assert(a0.kept(a1, who, key.index as int));
        }
        assert forall|key: TimerKey| #[trigger] a1.holds(key) implies after.model@.pending.contains_key(
            key,
        ) by {
            assert(a0.kept(a1, who, key.index as int));
            assert(a0.holds(key));
        }
        assert(a0.kept(a1, who, idx));
    }

    /// Takes the entry in cell `idx`, which is in no container, out of the arena.
    fn retire(&mut self, idx: usize, Ghost(strict): Ghost<bool>) -> (r: (TimerKey, T))
        requires
            old(self).inv(strict, idx as int),
            old(self).arena.occupied(idx as int),
        ensures
            final(self).inv(strict, -1),
            r.0 == old(self).arena.key_at(idx as int),
            old(self)@.pending.contains_key(r.0),
            r.1 == old(self)@.pending[r.0].value,
            final(self)@ == (TimerView {
                pending: old(self)@.pending.remove(r.0),
                removed: old(self)@.removed + 1,
                ..old(self)@
            }),
            final(self).wheel == old(self).wheel,
            final(self).heap == old(self).heap,
    {
        let serial = self.arena.serial(idx);
        let key = TimerKey { index: idx, serial };
        proof {
            assert(self.arena.holds(key));
            assert(self.model@.pending.contains_key(key));
            assert(self.model@.pending.remove(key).len() == self.model@.pending.len() - 1);
        }
        let node = self.arena.remove(idx);
        self.remove_count = self.remove_count + 1;
        proof {
            self.model = Ghost(
                TimerView {
                    pending: old(self).model@.pending.remove(key),
                    removed: old(self).model@.removed + 1,
                    ..old(self).model@
                },
            );
            let a0 = &old(self).arena;
            let a1 = &self.arena;
            let mw = old(self).wheel_set(idx as int);
            let mh = old(self).heap_set(idx as int);
            assert(self.wheel_set(-1) =~= mw) by {
                assert forall|j: int| j != idx implies #[trigger] a1.slot(j) == a0.slot(j) by {}
            }
            assert(self.heap_set(-1) =~= mh) by {
                assert forall|j: int| j != idx implies #[trigger] a1.slot(j) == a0.slot(j) by {}
            }
            assert forall|j: int|
                j != idx && a0.occupied(j) implies #[trigger] rem_of(a1, self.model@, j) == rem_of(
                a0,
                old(self).model@,
                j,
            ) by {
                assert(a1.slot(j) == a0.slot(j));
                a0.lemma_index_fits(j);
                assert(a1.key_at(j) != key);
            }
            assert forall|j: int| mw.contains(j) implies #[trigger] a1.slot(j) == a0.slot(j) by {}
            assert forall|j: int| mh.contains(j) implies #[trigger] a1.slot(j) == a0.slot(j) by {}
            self.wheel.lemma_tracks_frame(a0, a1, mw);
            self.heap.lemma_tracks_frame(&self.heap, a0, a1, mh);
            assert forall|j: int| #[trigger]
                mw.contains(j) implies mw.contains(j) && a1.node(j).location == a0.node(j).location
                && a1.node(j).timeout == a0.node(j).timeout && (self.rem())(j) == (old(
                self,
            ).rem())(j) by {
                if mw.contains(j) {
                    assert(a1.slot(j) == a0.slot(j));
                    assert(rem_of(a1, self.model@, j) == rem_of(a0, old(self).model@, j));
                }
            }
            old(self).wheel.lemma_timed_carry(
                &self.wheel,
                a0,
                a1,
                mw,
                mw,
                old(self).rem(),
                self.rem(),
            );
            assert forall|p: int|
                0 <= p < self.heap.entries@.len() && (old(self).good(strict))(
                    #[trigger] self.heap.entries@[p],
                ) implies (self.good(strict))(self.heap.entries@[p]) by {
                old(self).heap.lemma_member_position(a0, mh, p);
                let j = self.heap.cell(p);
                assert(rem_of(a1, self.model@, j) == rem_of(a0, old(self).model@, j));
            }
            old(self).heap.lemma_good_carry(&self.heap, old(self).good(strict), self.good(strict));
            assert forall|k2: TimerKey| #[trigger]
                self.model@.pending.contains_key(k2) implies a1.holds(k2)
                && self.model@.pending[k2].value == a1.node(k2.index as int).el by {
                assert(old(self).model@.pending.contains_key(k2));
                assert(a0.holds(k2));
                if k2.index != idx {
                    assert(a1.slot(k2.index as int) == a0.slot(k2.index as int));
                }
            }
            assert forall|k2: TimerKey| #[trigger] a1.holds(k2) implies self.model@.pending.contains_key(
                k2,
            ) by {
                assert(a1.slot(k2.index as int) == a0.slot(k2.index as int));
                assert(a0.holds(k2));
            }
        }
        (key, node.el)
    }

    /// Puts the entry in cell `idx`, which is in no container and is due `r`
    /// ticks from now, into the slot of the wheel in which it belongs.
    fn settle(&mut self, idx: usize, r: usize, Ghost(strict): Ghost<bool>)
        requires
            old(self).inv(strict, idx as int),
            old(self).arena.occupied(idx as int),
            r < old(self).wheel.epoch(),
            rem_of(&old(self).arena, old(self).model@, idx as int) == r,
        ensures
            final(self).inv(strict, -1),
            final(self)@ == old(self)@,
            final(self).heap == old(self).heap,
            final(self).wheel.pos == old(self).wheel.pos,
            final(self).wheel.unit@ == old(self).wheel.unit@,
    {
        let ghost before = *self;
        let ghost mw = self.wheel_set(idx as int);
        let (k, s, tau) = self.wheel.locate(r);
        self.wheel.attach(&mut self.arena, k, s, idx, tau, Ghost(mw));
        proof {
            let a0 = &before.arena;
            let a1 = &self.arena;
            Self::lemma_wheel_op_frame(&before, self, idx as int, strict, idx as int, -1);
            assert(self.wheel_set(-1) =~= mw.insert(idx as int)) by {
                assert forall|j: int|
                    self.wheel_set(-1).contains(j) == mw.insert(idx as int).contains(j) by {
                    assert(a0.kept_links(a1, idx as int, j));
                }
            }
            assert forall|j: int| self.wheel_set(-1).contains(j) implies #[trigger] self.wheel.timed_cell(
                a1,
                self.rem(),
                j,
            ) by {
                assert(a0.kept_links(a1, idx as int, j));
                Self::lemma_rem_same(&before, self, j);
                if j != idx {
                    assert(before.wheel.timed_cell(a0, before.rem(), j));
                }
            }
        }
    }

    /// Puts the entry in cell `idx`, which is in no container, into the heap
    /// with the given tick.
    fn stash(&mut self, idx: usize, tick: u128, Ghost(strict): Ghost<bool>)
        requires
            old(self).inv(strict, idx as int),
            old(self).arena.occupied(idx as int),
            tick == old(self).wheel.pos + rem_of(&old(self).arena, old(self).model@, idx as int),
            strict ==> tick >= old(self).wheel.epoch(),
        ensures
            final(self).inv(strict, -1),
            final(self)@ == old(self)@,
            final(self).wheel == old(self).wheel,
    {
        let ghost before = *self;
        let ghost mh = self.heap_set(idx as int);
        let ghost g = self.good(strict);
        self.heap.push(&mut self.arena, tick, idx, Ghost(mh), Ghost(g));
        proof {
            let a0 = &before.arena;
            let a1 = &self.arena;
            let who = mh.insert(idx as int);
            Self::lemma_heap_op_frame(&before, self, idx as int, idx as int, -1, who);
            assert forall|p: int|
                0 <= p < self.heap.entries@.len() && g(#[trigger] self.heap.entries@[p]) implies (
            self.good(strict))(self.heap.entries@[p]) by {
                self.heap.lemma_member_position(a1, who, p);
                let j = self.heap.cell(p);
                assert(a0.kept(a1, who, j));
                Self::lemma_rem_same(&before, self, j);
            }
            self.heap.lemma_good_carry(&self.heap, g, self.good(strict));
        }
    }

    /// After an element has been taken out of the heap, all is as it was but
    /// for the cell of that element, which is in no container.
    proof fn lemma_left_heap(before: &Self, after: &Self, idx: int, strict: bool)
        requires
            before.inv(strict, -1),
            before.arena.occupied(idx),
            before.arena.node(idx).location is Heap,
            after.arena.wf(),
            after.heap.tracks(&after.arena, before.heap_set(-1).remove(idx)),
            after.heap.all_good(before.good(strict)),
            after.heap.ordered(),
            before.arena.relocated(&after.arena, before.heap_set(-1).remove(idx)),
            after.wheel == before.wheel,
            after.model@ == before.model@,
            after.add_count == before.add_count,
            after.remove_count == before.remove_count,
            after.roll_count == before.roll_count,
        ensures
            after.inv(strict, idx),
            after.arena.occupied(idx),
            after.arena.key_at(idx) == before.arena.key_at(idx),
            rem_of(&after.arena, after.model@, idx) == rem_of(&before.arena, before.model@, idx),
    {
        let a0 = &before.arena;
        let a1 = &after.arena;
        let g = before.good(strict);
        let who = before.heap_set(-1).remove(idx);
        Self::lemma_heap_op_frame(before, after, idx, -1, idx, who);
        assert forall|q: int|
            0 <= q < after.heap.entries@.len() && g(#[trigger] after.heap.entries@[q]) implies (
        after.good(strict))(after.heap.entries@[q]) by {
            after.heap.lemma_member_position(a1, who, q);
            let j = after.heap.cell(q);
            assert(a0.kept(a1, who, j));
            Self::lemma_rem_same(before, after, j);
        }
        after.heap.lemma_good_carry(&after.heap, g, after.good(strict));
        assert(a0.kept(a1, who, idx));
    }

    /// Takes the smallest element out of the heap, if there is one. Its
    /// cell is then in no container.
    fn unhook_min(&mut self, Ghost(strict): Ghost<bool>) -> (r: Option<HeapEntry>)
        requires
            old(self).inv(strict, -1),
        ensures
            final(self)@ == old(self)@,
            final(self).wheel == old(self).wheel,
            match r {
                Some(e) => {
                    &&& old(self).heap.entries@.len() > 0
                    &&& e == old(self).heap.entries@[0]
                    &&& final(self).inv(strict, e.idx as int)
                    &&& final(self).arena.occupied(e.idx as int)
                    &&& e.tick == old(self).wheel.pos + rem_of(
                        &final(self).arena,
                        final(self).model@,
                        e.idx as int,
                    )
                    &&& final(self).heap.entries@.len() + 1 == old(self).heap.entries@.len()
                },
                None => old(self).heap.entries@.len() == 0 && final(self).inv(strict, -1),
            },
    {
        let ghost before = *self;
        let ghost mh = self.heap_set(-1);
        let ghost g = self.good(strict);
        let r = self.heap.pop(&mut self.arena, Ghost(mh), Ghost(g));
        proof {
            match r {
                Some(e) => {
                    before.heap.lemma_member_position(&before.arena, mh, 0);
                    assert(before.heap.good_at(g, 0));
                    Self::lemma_left_heap(&before, self, e.idx as int, strict);
                },
                None => {},
            }
        }
        r
    }

    /// Takes the entry in cell `idx` out of the container that holds it.
    fn unhook(&mut self, idx: usize, Ghost(strict): Ghost<bool>)
        requires
            old(self).inv(strict, -1),
            old(self).arena.occupied(idx as int),
        ensures
            final(self).inv(strict, idx as int),
            final(self)@ == old(self)@,
            final(self).arena.occupied(idx as int),
            final(self).arena.key_at(idx as int) == old(self).arena.key_at(idx as int),
            final(self).wheel.pos == old(self).wheel.pos,
            final(self).wheel.unit@ == old(self).wheel.unit@,
            old(self).arena.node(idx as int).location is Heap ==> final(self).heap.entries@.len()
                + 1 == old(self).heap.entries@.len(),
    {
        let ghost before = *self;
        let ghost mw = self.wheel_set(-1);
        let ghost mh = self.heap_set(-1);
        let ghost g = self.good(strict);
        match self.arena.location(idx) {
            Location::Wheel(k, s) => {
                proof {
                    assert(mw.contains(idx as int));
                }
                self.wheel.detach(&mut self.arena, k, s, idx, Ghost(mw));
                proof {
                    let a0 = &before.arena;
                    let a1 = &self.arena;
                    Self::lemma_wheel_op_frame(&before, self, idx as int, strict, -1, idx as int);
                    assert(self.wheel_set(idx as int) =~= mw.remove(idx as int)) by {
                        assert forall|j: int|
                            self.wheel_set(idx as int).contains(j) == mw.remove(
                                idx as int,
                            ).contains(j) by {
                            assert(a0.kept_links(a1, idx as int, j));
                        }
                    }
                    assert forall|j: int|
                        self.wheel_set(idx as int).contains(
                            j,
                        ) implies #[trigger] self.wheel.timed_cell(a1, self.rem(), j) by {
                        assert(a0.kept_links(a1, idx as int, j));
                        Self::lemma_rem_same(&before, self, j);
                        assert(before.wheel.timed_cell(a0, before.rem(), j));
                    }
                    assert(a0.kept_links(a1, idx as int, idx as int));
                }
            },
            Location::Heap(p) => {
                proof {
                    assert(mh.contains(idx as int));
                    assert(self.heap.at(&self.arena, idx as int));
                }
                let e = self.heap.remove(&mut self.arena, p, Ghost(mh), Ghost(g));
                proof {
                    Self::lemma_left_heap(&before, self, idx as int, strict);
                }
            },
        }
    }

    /// Schedules `el` to fire `delay` ticks from now.
    fn push_delay(&mut self, delay: u64, el: T) -> (key: TimerKey)
        requires
            old(self).wf(),
            old(self)@.added < usize::MAX,
        ensures
            final(self).wf(),
            old(self)@.fresh(key),
            !key.is_null(),
            final(self)@ == old(self)@.pushed(key, delay as nat, el),
    {
        let max = self.wheel.max_time();
        let serial = self.add_count;
        let idx = self.enroll(el, Ghost(delay as nat), Ghost(true));
        if delay < max as u64 {
            self.settle(idx, delay as usize, Ghost(true));
        } else {
            let tick: u128 = self.wheel.pos as u128 + delay as u128;
            self.stash(idx, tick, Ghost(true));
        }
        let key = TimerKey { index: idx, serial };
        proof {
            key.lemma_serial();
        }
        key
    }

    /// Schedules `el` to fire `timeout` ticks from now and returns the key
    /// under which it can be cancelled. A timeout of 0 makes the entry ready
    /// at once. The timeout may be of any size: one that exceeds the range of
    /// the wheel is kept in the heap until its epoch has come.
    pub fn push(&mut self, timeout: usize, el: T) -> (key: TimerKey)
        requires
            old(self).wf(),
            old(self)@.added < usize::MAX,
        ensures
            final(self).wf(),
            old(self)@.fresh(key),
            !key.is_null(),
            final(self)@ == old(self)@.pushed(key, timeout as nat, el),
    {
        self.push_delay(timeout as u64, el)
    }

    /// Schedules `el` to fire at the absolute tick `time`, or at once if that
    /// tick has passed, and returns the key under which it can be cancelled.
    pub fn push_time(&mut self, time: u64, el: T) -> (key: TimerKey)
        requires
            old(self).wf(),
            old(self)@.added < usize::MAX,
        ensures
            final(self).wf(),
            old(self)@.fresh(key),
            !key.is_null(),
            final(self)@ == old(self)@.pushed(
                key,
                if time >= old(self)@.now {
                    (time - old(self)@.now) as nat
                } else {
                    0
                },
                el,
            ),
    {
        let delay: u64 = if time >= self.roll_count {
            time - self.roll_count
        } else {
            0
        };
        self.push_delay(delay, el)
    }

    /// Cancels the entry that `key` names and returns its payload. Returns
    /// `None`, and changes nothing, if `key` names no scheduled entry: if it
    /// is null, or if its entry has fired or has been cancelled before.
    pub fn cancel(&mut self, key: TimerKey) -> (r: Option<T>)
        requires
            old(self).wf(),
        ensures
            final(self).wf(),
            final(self)@ == old(self)@.cancelled(key),
            match r {
                Some(v) => old(self)@.pending.contains_key(key) && v == old(self)@.pending[key].value,
                None => !old(self)@.pending.contains_key(key),
            },
    {
        if !self.arena.contains(key) {
            return None;
        }
        proof {
            self.arena.lemma_index_fits(key.index as int);
        }
        self.unhook(key.index, Ghost(true));
        let (_, el) = self.retire(key.index, Ghost(true));
        Some(el)
    }

    /// While the slot that the wheel points at is empty, no entry is due now.
    proof fn lemma_none_due(&self)
        requires
            self.wf(),
            self.wheel.list(0, self.wheel.cursor()).len() == 0,
        ensures
            forall|key: TimerKey| #[trigger]
                self.model@.pending.contains_key(key) ==> self.model@.pending[key].due
                    > self.model@.now,
    {
        assert forall|key: TimerKey| #[trigger]
            self.model@.pending.contains_key(key) implies self.model@.pending[key].due
            > self.model@.now by {
            assert(self.arena.holds(key));
            let j = key.index as int;
            match self.arena.node(j).location {
                Location::Wheel(k, s) => {
                    assert(self.wheel_set(-1).contains(j));
                    assert(self.wheel.timed_cell(&self.arena, self.rem(), j));
                    assert(self.wheel.on(&self.arena, j));
                    self.wheel.lemma_due_now(
                        k as int,
                        s as int,
                        self.arena.node(j).timeout as int,
                        (self.rem())(j),
                    );
                },
                Location::Heap(p) => {
                    assert(self.heap_set(-1).contains(j));
                    assert(self.heap.at(&self.arena, j));
                    assert(self.heap.good_at(self.good(true), p as int));
                },
            }
        }
    }

    /// The first entry on the slot that the wheel points at is due now.
    proof fn lemma_front_due(&self, idx: int)
        requires
            self.wf(),
            self.wheel.list(0, self.wheel.cursor()).len() > 0,
            idx == self.wheel.list(0, self.wheel.cursor())[0],
        ensures
            self.arena.occupied(idx),
            self.model@.pending.contains_key(self.arena.key_at(idx)),
            self.model@.pending[self.arena.key_at(idx)].due == self.model@.now,
            self.model@.is_earliest(self.arena.key_at(idx)),
    {
        let c = self.wheel.cursor();
        assert(self.wheel.level_ok(0));
        self.wheel.lemma_member(&self.arena, 0, c, 0);
        assert(self.wheel_set(-1).contains(idx));
        assert(self.wheel.timed_cell(&self.arena, self.rem(), idx));
        self.wheel.lemma_due_now(0, c, self.arena.node(idx).timeout as int, (self.rem())(idx));
        self.arena.lemma_index_fits(idx);
        assert(self.arena.holds(self.arena.key_at(idx)));
    }

    /// Takes out one entry that is due now, if there is one.
    fn pop_due(&mut self) -> (r: Option<(TimerKey, T)>)
        requires
            old(self).wf(),
        ensures
            final(self).wf(),
            match r {
                Some((key, el)) => {
                    &&& old(self)@.is_earliest(key)
                    &&& old(self)@.pending[key].due == old(self)@.now
                    &&& el == old(self)@.pending[key].value
                    &&& final(self)@ == old(self)@.fired(key)
                },
                None => {
                    &&& final(self)@ == old(self)@
                    &&& forall|key: TimerKey| #[trigger]
                        old(self)@.pending.contains_key(key) ==> old(self)@.pending[key].due > old(
                            self,
                        )@.now
                },
            },
    {
        let cur = self.wheel.current();
        match self.wheel.front::<T>(Ghost(&self.arena), 0, cur) {
            Some(idx) => {
                proof {
                    self.lemma_front_due(idx as int);
                }
                self.unhook(idx, Ghost(true));
                let (key, el) = self.retire(idx, Ghost(true));
                Some((key, el))
            },
            None => {
                proof {
                    self.lemma_none_due();
                }
                None
            },
        }
    }

    /// Moves every heap element whose tick lies within the present epoch
    /// into the wheel.
    fn migrate(&mut self)
        requires
            old(self).inv(false, -1),
        ensures
            final(self).inv(true, -1),
            final(self)@ == old(self)@,
    {
        let max: u128 = self.wheel.max_time() as u128;
        loop
            invariant
                self.inv(false, -1),
                self@ == old(self)@,
                max == self.wheel.epoch(),
            ensures
                self.inv(true, -1),
            decreases self.heap.entries@.len(),
        {
            match self.heap.peek() {
                None => {
                    proof {
                        assert forall|p: int|
                            0 <= p < self.heap.entries@.len() implies #[trigger] self.heap.good_at(
                            self.good(true),
                            p,
                        ) by {}
                    }
                    break ;
                },
                Some(e) => {
                    if e.tick >= max {
                        proof {
                            assert forall|p: int|
                                0 <= p < self.heap.entries@.len() implies #[trigger] self.heap.good_at(
                                self.good(true),
                                p,
                            ) by {
                                self.heap.lemma_root_is_min(p);
                                assert(self.heap.good_at(self.good(false), p));
                            }
                        }
                        break ;
                    }
                    let pos: u128 = self.wheel.pos as u128;
                    match self.unhook_min(Ghost(false)) {
                        Some(least) => {
                            proof {
                                let j = least.idx as int;
                                self.arena.lemma_index_fits(j);
                                assert(self.arena.holds(self.arena.key_at(j)));
                            }
                            self.settle(least.idx, (least.tick - pos) as usize, Ghost(false));
                        },
                        None => {},
                    }
                },
            }
        }
    }

    /// Advances the clock by exactly one tick.
    ///
    /// An entry that was ready at the old tick and has not been taken out is
    /// passed over: the wheel comes round to it `N0` ticks later. `pop`,
    /// `pop_kv` and `is_ok` never pass an entry over, since they advance the
    /// clock only while nothing is ready.
    pub fn roll(&mut self)
        requires
            old(self).wf(),
            old(self)@.now < u64::MAX,
        ensures
            final(self).wf(),
            final(self)@ == old(self)@.rolled(N0 as nat),
    {
        let ghost before = *self;
        let ghost mw = self.wheel_set(-1);
        let ghost mh = self.heap_set(-1);
        let ghost rem0 = self.rem();
        let max = self.wheel.max_time();
        self.roll_count = self.roll_count + 1;
        let wrapped = self.wheel.roll(&mut self.arena, Ghost(mw), Ghost(rem0));
        if wrapped {
            proof {
                assert forall|p: int| 0 <= p < self.heap.entries@.len() implies (
                #[trigger] self.heap.entries@[p]).tick >= max as u128 by {
                    assert(before.heap.good_at(before.good(true), p));
                }
            }
            self.heap.rebase(max as u128);
        }
        proof {
            self.model = Ghost(before.model@.rolled(N0 as nat));
            let a0 = &before.arena;
            let a1 = &self.arena;
            assert(before.model@.step(self.model@, N0 as nat));
            before.model@.law_step_inv(self.model@, N0 as nat);
            assert(self.wheel_set(-1) =~= mw) by {
                assert forall|j: int| self.wheel_set(-1).contains(j) == mw.contains(j) by {
                    assert(a0.kept_any(a1, j));
                }
            }
            assert(self.heap_set(-1) =~= mh) by {
                assert forall|j: int| self.heap_set(-1).contains(j) == mh.contains(j) by {
                    assert(a0.kept_any(a1, j));
                }
            }
            assert forall|j: int| a0.occupied(j) implies #[trigger] (self.rem())(j) == (
            Wheel::<N0, N, L>::ticked(rem0))(j) by {
                assert(a0.kept_any(a1, j));
                a0.lemma_index_fits(j);
                assert(a1.key_at(j) == a0.key_at(j));
                assert(a0.holds(a0.key_at(j)));
                assert(before.model@.pending.contains_key(a0.key_at(j)));
            }
            assert forall|j: int| mw.contains(j) implies #[trigger] (self.rem())(j) == (
            Wheel::<N0, N, L>::ticked(rem0))(j) by {}
            self.wheel.lemma_timed_ext(a1, mw, Wheel::<N0, N, L>::ticked(rem0), self.rem());
            assert forall|j: int| mh.contains(j) implies #[trigger] a1.slot(j) == a0.slot(j) by {
                assert(a0.kept_any(a1, j));
            }
            before.heap.lemma_tracks_frame(&self.heap, a0, a1, mh);
            let strict = !wrapped;
            let g1 = self.good(strict);
            assert forall|p: int| 0 <= p < self.heap.entries@.len() implies #[trigger] self.heap.good_at(
                g1,
                p,
            ) by {
                assert(before.heap.good_at(before.good(true), p));
                before.heap.lemma_member_position(a0, mh, p);
                let j = before.heap.cell(p);
                assert((self.rem())(j) == (Wheel::<N0, N, L>::ticked(rem0))(j));
            }
            assert forall|key: TimerKey| #[trigger]
                self.model@.pending.contains_key(key) implies a1.holds(key)
                && self.model@.pending[key].value == a1.node(key.index as int).el by {
                assert(before.model@.pending.contains_key(key));
                assert(a0.holds(key));
                assert(a0.kept_any(a1, key.index as int));
            }
            assert forall|key: TimerKey| #[trigger] a1.holds(key) implies self.model@.pending.contains_key(
                key,
            ) by {
                assert(a0.kept_any(a1, key.index as int));
                assert(a0.holds(key));
            }
        }
        if wrapped {
            self.migrate();
        }
    }

    /// While nothing is due now, a forced tick postpones nothing.
    proof fn lemma_roll_keeps(v: TimerView<T>)
        requires
            forall|key: TimerKey| #[trigger]
                v.pending.contains_key(key) ==> v.pending[key].due > v.now,
        ensures
            v.rolled(N0 as nat) == (TimerView { now: v.now + 1, ..v }),
    {
        assert(v.rolled(N0 as nat).pending =~= v.pending);
    }

    /// Takes out one entry that is due at or before tick `now`, together
    /// with its key; `None` if there is none.
    ///
    /// The clock is advanced as far as the tick of the entry that is taken
    /// out, and no further; if there is nothing to take out it is advanced
    /// to `now`. A bound in the past stands for the present tick. Among the
    /// entries that are due, the one with the earliest tick is taken; which
    /// of several entries with the same tick comes first is not specified.
    pub fn pop_kv(&mut self, now: u64) -> (r: Option<(TimerKey, T)>)
        requires
            old(self).wf(),
        ensures
            final(self).wf(),
            match r {
                Some((key, el)) => {
                    &&& old(self)@.may_fire(now as nat, key)
                    &&& el == old(self)@.pending[key].value
                    &&& final(self)@ == old(self)@.fired(key)
                },
                None => {
                    &&& !old(self)@.due_by(old(self)@.horizon(now as nat))
                    &&& final(self)@ == old(self)@.idled(now as nat)
                },
            },
    {
        loop
            invariant
                self.wf(),
                self@ == (TimerView { now: self@.now, ..old(self)@ }),
                old(self)@.now <= self@.now,
                self@.now == old(self)@.now || self@.now <= now,
                self@.inv(),
                self.roll_count == self@.now,
            decreases now - self.roll_count,
        {
            match self.pop_due() {
                Some(kv) => {
                    return Some(kv);
                },
                None => {},
            }
            if self.roll_count >= now {
                return None;
            }
            proof {
                Self::lemma_roll_keeps(self@);
            }
            self.roll();
        }
    }

    /// Takes out one entry that is due at or before tick `now`; `None` if
    /// there is none. The clock moves as `pop_kv` moves it.
    pub fn pop(&mut self, now: u64) -> (r: Option<T>)
        requires
            old(self).wf(),
        ensures
            final(self).wf(),
            match r {
                Some(el) => exists|key: TimerKey|
                    {
                        &&& #[trigger] old(self)@.may_fire(now as nat, key)
                        &&& el == old(self)@.pending[key].value
                        &&& final(self)@ == old(self)@.fired(key)
                    },
                None => {
                    &&& !old(self)@.due_by(old(self)@.horizon(now as nat))
                    &&& final(self)@ == old(self)@.idled(now as nat)
                },
            },
    {
        match self.pop_kv(now) {
            Some((_, el)) => Some(el),
            None => None,
        }
    }

    /// Tells whether some entry is due at or before tick `now`.
    ///
    /// This is no pure query: the clock is advanced exactly as `pop` would
    /// advance it, up to the tick of the earliest entry that is due, or to
    /// `now` if there is none. No entry is taken out.
    pub fn is_ok(&mut self, now: u64) -> (b: bool)
        requires
            old(self).wf(),
        ensures
            final(self).wf(),
            b == old(self)@.due_by(old(self)@.horizon(now as nat)),
            b ==> exists|key: TimerKey|
                #[trigger] old(self)@.may_fire(now as nat, key) && final(self)@ == old(
                    self,
                )@.reached(key),
            !b ==> final(self)@ == old(self)@.idled(now as nat),
    {
        loop
            invariant
                self.wf(),
                self@ == (TimerView { now: self@.now, ..old(self)@ }),
                old(self)@.now <= self@.now,
                self@.now == old(self)@.now || self@.now <= now,
                self@.inv(),
                self.roll_count == self@.now,
            decreases now - self.roll_count,
        {
            if !self.wheel.is_cur_over::<T>(Ghost(&self.arena)) {
                proof {
                    let idx = self.wheel.list(0, self.wheel.cursor())[0] as int;
                    self.lemma_front_due(idx);
                    let key = self.arena.key_at(idx);
                    assert(old(self)@.may_fire(now as nat, key));
                    assert(self@ == old(self)@.reached(key));
                }
                return true;
            }
            proof {
                self.lemma_none_due();
            }
            if self.roll_count >= now {
                return false;
            }
            proof {
                Self::lemma_roll_keeps(self@);
            }
            self.roll();
        }
    }
}

impl<T, const N0: usize, const N: usize, const L: usize> Default for Timer<T, N0, N, L> {
    /// A timer without entries, at tick 0; see `new`.
    fn default() -> (t: Self)
        ensures
            t.wf() <==> Self::valid_dimensions(),
            t.wf() ==> t@ == TimerView::<T>::empty(),
    {
        Timer::new()
    }
}

} // verus!
