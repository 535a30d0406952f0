//! The timing wheel: a hierarchy of bucket levels that covers one epoch.
//!
//! Level 0 has `N0` slots of one tick each. Each of the `L` levels above has
//! `N` slots, and one slot of a level is as wide as the whole level below.
//! The wheel keeps one position within the epoch; the position read in the
//! units of a level names the current slot of that level, as the digits of an
//! odometer do. An entry is kept on the list of the slot in which its fire
//! time falls, at the lowest level whose cycle is longer than its delay. When
//! the position enters a new slot of a higher level, the entries of that slot
//! are handed down to the levels below.
//!
//! The wheel owns no entries. The lists are threaded through the cells of
//! the arena, which is passed to every operation.

use vstd::prelude::*;
use crate::arena::{Arena, Location};
use crate::model::{lemma_span_grows, span};
use crate::arith::{lemma_exact, lemma_mod_of_mod, lemma_multiple, lemma_slot_facts, lemma_succ_mod};

verus! {

/// The two ends of the list of one slot.
#[derive(Clone, Copy)]
pub(crate) struct Bucket {
    pub(crate) head: Option<usize>,
    pub(crate) tail: Option<usize>,
}

/// The wheel.
pub(crate) struct Wheel<const N0: usize, const N: usize, const L: usize> {
    /// The slots, level by level.
    pub(crate) buckets: Vec<Vec<Bucket>>,
    /// The width of one slot of each level, in ticks; the last element is the
    /// length of the epoch.
    pub(crate) unit: Vec<usize>,
    /// The position within the epoch.
    pub(crate) pos: usize,
    /// The cells on each list, first to last.
    pub(crate) lists: Ghost<Seq<Seq<Seq<usize>>>>,
}

impl<const N0: usize, const N: usize, const L: usize> Wheel<N0, N, L> {
    /// The dimensions describe a wheel: at least one slot on every level, and
    /// an epoch whose length fits the machine word.
    pub open spec fn valid_dimensions() -> bool {
        &&& N0 >= 1
        &&& N >= 1
        &&& L + 2 <= usize::MAX
        &&& span(N0 as nat, N as nat, L as nat) <= usize::MAX
    }

    /// The number of slots of level `k`.
    pub(crate) open spec fn count(k: int) -> int {
        if k == 0 {
            N0 as int
        } else {
            N as int
        }
    }

    /// `(k, s)` names a slot.
    pub(crate) open spec fn valid_slot(k: int, s: int) -> bool {
        0 <= k <= L && 0 <= s < Self::count(k)
    }

    /// The ends of the list of slot `s` of level `k`.
    pub(crate) open spec fn bucket(&self, k: int, s: int) -> Bucket {
        self.buckets@[k]@[s]
    }

    /// The cells on the list of slot `s` of level `k`, first to last.
    pub(crate) open spec fn list(&self, k: int, s: int) -> Seq<usize> {
        self.lists@[k][s]
    }

    /// Level `k` has its slots, and one slot of the next level is as wide as
    /// the whole of level `k`.
    pub(crate) open spec fn level_ok(&self, k: int) -> bool {
        &&& self.buckets@[k]@.len() == Self::count(k)
        &&& self.lists@[k].len() == Self::count(k)
        &&& self.unit@[k] >= 1
        &&& self.unit@[k + 1] == self.unit@[k] * Self::count(k)
    }

    /// The wheel has the shape that its dimensions ask for.
    pub(crate) open spec fn shaped(&self) -> bool {
        &&& N0 >= 1
        &&& N >= 1
        &&& L + 2 <= usize::MAX
        &&& self.buckets@.len() == L + 1
        &&& self.lists@.len() == L + 1
        &&& self.unit@.len() == L + 2
        &&& self.unit@[0] == 1
        &&& forall|k: int| 0 <= k <= L ==> #[trigger] self.level_ok(k)
        &&& self.pos < self.unit@[L + 1]
    }

    /// `other` has the same shape, widths and position.
    pub(crate) open spec fn same_frame(&self, other: &Self) -> bool {
        &&& other.unit@ == self.unit@
        &&& other.pos == self.pos
        &&& other.buckets@.len() == self.buckets@.len()
        &&& other.lists@.len() == self.lists@.len()
    }

    /// The length of the epoch.
    pub(crate) open spec fn epoch(&self) -> int {
        self.unit@[L + 1] as int
    }

    /// The slot of level 0 that the position points at.
    pub(crate) open spec fn cursor(&self) -> int {
        self.pos as int % (N0 as int)
    }

    /// The widths grow with the level.
    pub(crate) proof fn lemma_unit_grows(&self, a: int, b: int)
        requires
            self.shaped(),
            0 <= a <= b <= L + 1,
        ensures
            1 <= self.unit@[a] <= self.unit@[b],
        decreases b - a,
    {
        if a == L + 1 {
            assert(self.level_ok(L as int));
            assert(self.unit@[L as int] * Self::count(L as int) >= 1) by (nonlinear_arith)
                requires
                    self.unit@[L as int] >= 1,
                    Self::count(L as int) >= 1,
            ;
        } else if a < b {
            assert(self.level_ok(a));
            self.lemma_unit_grows(a + 1, b);
            assert(self.unit@[a] * Self::count(a) >= self.unit@[a]) by (nonlinear_arith)
                requires
                    self.unit@[a] >= 1,
                    Self::count(a) >= 1,
            ;
        } else {
            assert(self.level_ok(a));
        }
    }

    /// The number of slots of level `k`.
    fn slots(k: usize) -> (n: usize)
        ensures
            n == Self::count(k as int),
    {
        if k == 0 {
            N0
        } else {
            N
        }
    }

    /// The length of the epoch: the largest delay that the wheel holds is one
    /// tick less.
    pub(crate) fn max_time(&self) -> (m: usize)
        requires
            self.shaped(),
        ensures
            m == self.epoch(),
            m >= 1,
    {
        proof {
            self.lemma_unit_grows(0, L + 1);
        }
        self.unit[L + 1]
    }

    /// Tells whether the slot that the position points at is empty.
    pub(crate) fn is_cur_over<T>(&self, Ghost(arena): Ghost<&Arena<T>>) -> (b: bool)
        requires
            self.linked(arena),
        ensures
            b == (self.list(0, self.cursor()).len() == 0),
            Self::valid_slot(0, self.cursor()),
    {
        proof {
            assert(self.level_ok(0));
            assert(self.linked_at(arena, 0, self.cursor()));
        }
        self.buckets[0][self.pos % N0].head.is_none()
    }

    /// The slot of level 0 that the position points at.
    pub(crate) fn current(&self) -> (s: usize)
        requires
            self.shaped(),
        ensures
            s == self.cursor(),
            Self::valid_slot(0, s as int),
    {
        self.pos % N0
    }

    /// The slot and the fire time for a delay of `r` ticks from now: the
    /// level is the lowest one whose cycle is longer than `r`, the fire time
    /// is the position within that cycle at which the entry is due, and the
    /// slot is the one in which that position falls.
    pub(crate) fn locate(&self, r: usize) -> (place: (usize, usize, usize))
        requires
            self.shaped(),
            r < self.epoch(),
        ensures
            self.placed(place.0 as int, place.1 as int, place.2 as int, r as int),
            r < self.unit@[place.0 + 1],
            place.0 == 0 || r >= self.unit@[place.0 as int],
    {
        let mut k: usize = 0;
        while r >= self.unit[k + 1]
            invariant
                self.shaped(),
                k <= L,
                r < self.unit@[L + 1],
                k == 0 || r >= self.unit@[k as int],
            decreases L - k,
        {
            k = k + 1;
        }
        proof {
            assert(self.level_ok(k as int));
            self.lemma_unit_grows(0, k as int);
        }
        let u: usize = self.unit[k];
        let m: usize = self.unit[k + 1];
        let lp: usize = self.pos % m;
        let tau: usize = if r >= m - lp {
            r - (m - lp)
        } else {
            lp + r
        };
        let s: usize = tau / u;
        proof {
            lemma_slot_facts(tau as int, u as int, Self::count(k as int));
        }
        (k, s, tau)
    }

    /// An entry with fire time `tau` on the list of slot `(k, s)` is due `r`
    /// ticks from now. The entry is due at position `tau` of the cycle of its
    /// level, either in the present turn of the cycle or, if that position
    /// has been passed already, in the next one; above level 0 it is never in
    /// the slot that the position has entered.
    pub(crate) open spec fn placed(&self, k: int, s: int, tau: int, r: int) -> bool {
        let u = self.unit@[k] as int;
        let m = self.unit@[k + 1] as int;
        let lp = self.pos as int % m;
        &&& Self::valid_slot(k, s)
        &&& 0 <= tau < m
        &&& s == tau / u
        &&& ({
            ||| (r == tau - lp && if k == 0 {
                tau >= lp
            } else {
                s * u > lp
            })
            ||| (tau < lp && r == tau + m - lp)
        })
    }

    /// The entry in cell `j` is in the slot in which an entry that is due
    /// `rem(j)` ticks from now belongs.
    pub(crate) open spec fn timed_cell<T>(
        &self,
        arena: &Arena<T>,
        rem: spec_fn(int) -> int,
        j: int,
    ) -> bool {
        match arena.node(j).location {
            Location::Wheel(k, s) => self.placed(
                k as int,
                s as int,
                arena.node(j).timeout as int,
                rem(j),
            ),
            Location::Heap(_) => false,
        }
    }

    /// Every member is in the slot in which it belongs.
    pub(crate) open spec fn timed<T>(
        &self,
        arena: &Arena<T>,
        members: Set<int>,
        rem: spec_fn(int) -> int,
    ) -> bool {
        forall|j: int| members.contains(j) ==> #[trigger] self.timed_cell(arena, rem, j)
    }

    /// The timing of the members depends on their delays only.
    pub(crate) proof fn lemma_timed_ext<T>(
        &self,
        arena: &Arena<T>,
        members: Set<int>,
        rem: spec_fn(int) -> int,
        rem2: spec_fn(int) -> int,
    )
        requires
            self.timed(arena, members, rem),
            forall|j: int| members.contains(j) ==> #[trigger] rem2(j) == rem(j),
        ensures
            self.timed(arena, members, rem2),
    {
        assert forall|j: int| members.contains(j) implies #[trigger] self.timed_cell(
            arena,
            rem2,
            j,
        ) by {
            assert(self.timed_cell(arena, rem, j));
            assert(rem2(j) == rem(j));
        }
    }

    /// Members that keep their place, fire time and delay keep their timing.
    pub(crate) proof fn lemma_timed_carry<T>(
        &self,
        next: &Self,
        before: &Arena<T>,
        after: &Arena<T>,
        members: Set<int>,
        members2: Set<int>,
        rem: spec_fn(int) -> int,
        rem2: spec_fn(int) -> int,
    )
        requires
            self.timed(before, members, rem),
            next.unit@ == self.unit@,
            next.pos == self.pos,
            forall|j: int| #[trigger]
                members2.contains(j) ==> members.contains(j) && after.node(j).location
                    == before.node(j).location && after.node(j).timeout == before.node(j).timeout
                    && rem2(j) == rem(j),
        ensures
            next.timed(after, members2, rem2),
    {
        assert forall|j: int| members2.contains(j) implies #[trigger] next.timed_cell(
            after,
            rem2,
            j,
        ) by {
            assert(self.timed_cell(before, rem, j));
        }
    }

    /// A wheel without levels, for dimensions that describe no wheel.
    pub(crate) fn hollow() -> (w: Self)
        ensures
            !Self::valid_dimensions() ==> !w.shaped(),
    {
        Wheel { buckets: Vec::new(), unit: Vec::new(), pos: 0, lists: Ghost(Seq::empty()) }
    }

    /// An entry in the slot that the position points at is due now, and an
    /// entry that is due now is in that slot.
    pub(crate) proof fn lemma_due_now(&self, k: int, s: int, tau: int, r: int)
        requires
            self.shaped(),
            self.placed(k, s, tau, r),
        ensures
            r >= 0,
            r == 0 <==> (k == 0 && s == self.cursor()),
    {
        let u = self.unit@[k] as int;
        let m = self.unit@[k + 1] as int;
        assert(self.level_ok(k));
        assert(self.level_ok(0));
        lemma_slot_facts(tau, u, Self::count(k));
        vstd::arithmetic::div_mod::lemma_mod_bound(self.pos as int, m);
        if k == 0 {
            assert(m == N0) by (nonlinear_arith)
                requires
                    m == u * Self::count(k),
                    u == 1,
                    Self::count(k) == N0,
            ;
            assert(s == tau) by (nonlinear_arith)
                requires
                    s * u <= tau < s * u + u,
                    u == 1,
            ;
        }
    }

    /// The widths of the slots of all levels, followed by the length of the
    /// epoch; `None` if the dimensions describe no wheel.
    pub(crate) fn widths() -> (r: Option<Vec<usize>>)
        ensures
            r is Some <==> Self::valid_dimensions(),
            r is Some ==> {
                &&& r.unwrap()@.len() == L + 2
                &&& r.unwrap()@[0] == 1
                &&& forall|i: int|
                    0 <= i <= L ==> #[trigger] r.unwrap()@[i + 1] == span(
                        N0 as nat,
                        N as nat,
                        i as nat,
                    )
            },
    {
        if N0 == 0 || N == 0 || L >= usize::MAX - 1 {
            return None;
        }
        let mut unit: Vec<usize> = Vec::new();
        unit.push(1);
        unit.push(N0);
        let mut k: usize = 1;
        while k <= L
            invariant
                N0 >= 1,
                N >= 1,
                L < usize::MAX - 1,
                1 <= k <= L + 1,
                unit@.len() == k + 1,
                unit@[0] == 1,
                forall|i: int|
                    0 <= i < k ==> #[trigger] unit@[i + 1] == span(N0 as nat, N as nat, i as nat),
            decreases L + 1 - k,
        {
            assert(unit@[(k - 1) + 1] == span(N0 as nat, N as nat, (k - 1) as nat));
            match unit[k].checked_mul(N) {
                Some(v) => {
                    unit.push(v);
                },
                None => {
                    proof {
                        lemma_span_grows(N0 as nat, N as nat, k as nat, L as nat);
                    }
                    return None;
                },
            }
            k = k + 1;
        }
        assert(unit@[(L as int) + 1] == span(N0 as nat, N as nat, L as nat));
        Some(unit)
    }

    /// A wheel for the given dimensions, without entries, at the start of its
    /// epoch; `None` if the dimensions describe no wheel.
    pub(crate) fn new() -> (w: Option<Self>)
        ensures
            w is Some <==> Self::valid_dimensions(),
            w is Some ==> w.unwrap().shaped() && w.unwrap().vacant() && w.unwrap().pos == 0
                && w.unwrap().epoch() == span(N0 as nat, N as nat, L as nat),
            w is Some ==> forall|k: int, s: int|
                Self::valid_slot(k, s) ==> (#[trigger] w.unwrap().bucket(k, s)).head is None
                    && w.unwrap().bucket(k, s).tail is None,
    {
        let unit = match Self::widths() {
            Some(u) => u,
            None => {
                return None;
            },
        };
        let mut buckets: Vec<Vec<Bucket>> = Vec::new();
        let mut j: usize = 0;
        while j <= L
            invariant
                L < usize::MAX - 1,
                0 <= j <= L + 1,
                buckets@.len() == j,
                forall|i: int| 0 <= i < j ==> (#[trigger] buckets@[i])@.len() == Self::count(i),
                forall|i: int, t: int|
                    0 <= i < j && 0 <= t < Self::count(i) ==> (#[trigger] buckets@[i]@[t]).head is None
                        && buckets@[i]@[t].tail is None,
            decreases L + 1 - j,
        {
            let n = Self::slots(j);
            let mut row: Vec<Bucket> = Vec::new();
            let mut t: usize = 0;
            while t < n
                invariant
                    t <= n,
                    row@.len() == t,
                    forall|i: int|
                        0 <= i < t ==> (#[trigger] row@[i]).head is None && row@[i].tail is None,
                decreases n - t,
            {
                row.push(Bucket { head: None, tail: None });
                t = t + 1;
            }
            buckets.push(row);
            j = j + 1;
        }
        let ghost lists = Seq::new(
            (L + 1) as nat,
            |i: int| Seq::new(Self::count(i) as nat, |t: int| Seq::<usize>::empty()),
        );
        let w = Wheel { buckets, unit, pos: 0, lists: Ghost(lists) };
        proof {
            assert forall|i: int| 0 <= i <= L implies #[trigger] w.level_ok(i) by {
                assert(w.unit@[i + 1] == span(N0 as nat, N as nat, i as nat));
                if i > 0 {
                    assert(w.unit@[(i - 1) + 1] == span(N0 as nat, N as nat, (i - 1) as nat));
                    lemma_span_grows(N0 as nat, N as nat, 0, (i - 1) as nat);
                } else {
                    assert(1 * N0 == N0) by (nonlinear_arith);
                }
            }
            assert(w.unit@[(L as int) + 1] == span(N0 as nat, N as nat, L as nat));
            lemma_span_grows(N0 as nat, N as nat, 0, L as nat);
        }
        Some(w)
    }

    /// The slot `(k, s)` above level 0 has just been entered, and an entry
    /// with fire time `tau` on its list is due `r` ticks from now: the entry
    /// waits to be handed down.
    pub(crate) open spec fn ready(&self, k: int, s: int, tau: int, r: int) -> bool {
        let u = self.unit@[k] as int;
        let m = self.unit@[k + 1] as int;
        let lp = self.pos as int % m;
        &&& Self::valid_slot(k, s)
        &&& k >= 1
        &&& 0 <= tau < m
        &&& s == tau / u
        &&& s * u == lp
        &&& r == tau - lp
    }

    /// The entry in cell `j` is in the slot in which it belongs, or it waits
    /// to be handed down from a level no lower than `from`.
    pub(crate) open spec fn settling_cell<T>(
        &self,
        arena: &Arena<T>,
        rem: spec_fn(int) -> int,
        from: int,
        j: int,
    ) -> bool {
        match arena.node(j).location {
            Location::Wheel(k, s) => {
                ||| self.placed(k as int, s as int, arena.node(j).timeout as int, rem(j))
                ||| (k >= from && self.ready(
                    k as int,
                    s as int,
                    arena.node(j).timeout as int,
                    rem(j),
                ))
            },
            Location::Heap(_) => false,
        }
    }

    /// Every member is where it belongs, or waits to be handed down from a
    /// level no lower than `from`.
    pub(crate) open spec fn settling<T>(
        &self,
        arena: &Arena<T>,
        members: Set<int>,
        rem: spec_fn(int) -> int,
        from: int,
    ) -> bool {
        forall|j: int| members.contains(j) ==> #[trigger] self.settling_cell(arena, rem, from, j)
    }

    /// The delays one tick later. An entry that was due and is passed over
    /// comes round again after one turn of level 0.
    pub(crate) open spec fn ticked(rem: spec_fn(int) -> int) -> spec_fn(int) -> int {
        |j: int|
            if rem(j) == 0 {
                N0 as int - 1
            } else {
                rem(j) - 1
            }
    }

    /// What is a multiple of the width of a level is a multiple of the width
    /// of every lower level.
    pub(crate) proof fn lemma_divides_down(&self, x: int, a: int, b: int)
        requires
            self.shaped(),
            0 <= a <= b <= L + 1,
            x >= 0,
            x % (self.unit@[b] as int) == 0,
        ensures
            x % (self.unit@[a] as int) == 0,
        decreases b - a,
    {
        if a < b {
            assert(self.level_ok(b - 1));
            lemma_mod_of_mod(x, self.unit@[b - 1] as int, Self::count(b - 1));
            self.lemma_unit_grows(0, b - 1);
            assert(0int % (self.unit@[b - 1] as int) == 0);
            self.lemma_divides_down(x, a, b - 1);
        }
    }

    /// The position within the cycle of level `k` after one tick.
    proof fn lemma_low_succ(&self, next: &Self, k: int)
        requires
            self.shaped(),
            next.unit@ == self.unit@,
            next.pos == (if self.pos + 1 == self.epoch() {
                0
            } else {
                self.pos + 1
            }),
            0 <= k <= L,
        ensures
            next.pos as int % (self.unit@[k + 1] as int) == (if self.pos as int % (self.unit@[k
                + 1] as int) + 1 == self.unit@[k + 1] {
                0
            } else {
                self.pos as int % (self.unit@[k + 1] as int) + 1
            }),
    {
        let m = self.unit@[k + 1] as int;
        self.lemma_unit_grows(0, k + 1);
        lemma_succ_mod(self.pos as int, m);
        if self.pos + 1 == self.epoch() {
            self.lemma_unit_grows(0, L + 1);
            assert(self.epoch() % self.epoch() == 0) by {
                vstd::arithmetic::div_mod::lemma_mod_self_0(self.epoch());
            }
            self.lemma_divides_down(self.epoch(), k + 1, L + 1);
            assert(0int % m == 0);
        }
    }

    /// One tick later an entry is still where it belongs, or it is in a slot
    /// that has just been entered and waits to be handed down.
    proof fn lemma_tick(&self, next: &Self, k: int, s: int, tau: int, r: int)
        requires
            self.shaped(),
            next.unit@ == self.unit@,
            next.pos == (if self.pos + 1 == self.epoch() {
                0
            } else {
                self.pos + 1
            }),
            self.placed(k, s, tau, r),
        ensures
            r >= 0,
            r == 0 ==> k == 0 && s == self.cursor(),
            next.placed(k, s, tau, Self::ticked(|j: int| r)(0)) || next.ready(
                k,
                s,
                tau,
                Self::ticked(|j: int| r)(0),
            ),
    {
        let u = self.unit@[k] as int;
        let m = self.unit@[k + 1] as int;
        let c = Self::count(k);
        assert(self.level_ok(k));
        assert(self.level_ok(0));
        lemma_slot_facts(tau, u, c);
        self.lemma_low_succ(next, k);
        let lp = self.pos as int % m;
        let lp2 = next.pos as int % m;
        assert(0 <= lp < m) by {
            vstd::arithmetic::div_mod::lemma_mod_bound(self.pos as int, m);
        }
        let r2 = Self::ticked(|j: int| r)(0);
        assert(r2 == if r == 0 {
            N0 as int - 1
        } else {
            r - 1
        });
        if k == 0 {
            assert(u == 1);
            assert(m == N0) by (nonlinear_arith)
                requires
                    m == u * c,
                    u == 1,
                    c == N0,
            ;
            assert(s == tau) by (nonlinear_arith)
                requires
                    s * u <= tau < s * u + u,
                    u == 1,
            ;
            assert(next.placed(k, s, tau, r2));
        } else {
            let su = s * u;
            assert(su <= tau < su + u);
            assert(su + u <= m);
            if r == tau - lp && su > lp {
                assert(lp + 1 < m);
                assert(lp2 == lp + 1);
                if su > lp2 {
                    assert(next.placed(k, s, tau, r2));
                } else {
                    assert(next.ready(k, s, tau, r2));
                }
            } else {
                assert(tau < lp && r == tau + m - lp);
                if lp + 1 == m {
                    assert(lp2 == 0);
                    if su > 0 {
                        assert(next.placed(k, s, tau, r2));
                    } else {
                        assert(next.ready(k, s, tau, r2));
                    }
                } else {
                    assert(next.placed(k, s, tau, r2));
                }
            }
        }
    }

    /// After the position has moved by one tick, every member is where it
    /// belongs or waits to be handed down.
    proof fn lemma_tick_all<T>(
        &self,
        next: &Self,
        arena: &Arena<T>,
        members: Set<int>,
        rem: spec_fn(int) -> int,
    )
        requires
            self.shaped(),
            next.unit@ == self.unit@,
            next.pos == (if self.pos + 1 == self.epoch() {
                0
            } else {
                self.pos + 1
            }),
            self.timed(arena, members, rem),
        ensures
            next.settling(arena, members, Self::ticked(rem), 1),
    {
        assert forall|j: int| members.contains(j) implies #[trigger] next.settling_cell(
            arena,
            Self::ticked(rem),
            1,
            j,
        ) by {
            assert(self.timed_cell(arena, rem, j));
            match arena.node(j).location {
                Location::Wheel(k, s) => {
                    self.lemma_tick(
                        next,
                        k as int,
                        s as int,
                        arena.node(j).timeout as int,
                        rem(j),
                    );
                },
                Location::Heap(_) => {},
            }
        }
    }

    /// When the position is no multiple of the width of level `from`, no
    /// entry waits to be handed down from that level or a higher one.
    proof fn lemma_settled<T>(
        &self,
        arena: &Arena<T>,
        members: Set<int>,
        rem: spec_fn(int) -> int,
        from: int,
    )
        requires
            self.shaped(),
            1 <= from <= L + 1,
            self.settling(arena, members, rem, from),
            from <= L ==> self.pos as int % (self.unit@[from] as int) != 0,
        ensures
            self.timed(arena, members, rem),
    {
        assert forall|j: int| members.contains(j) implies #[trigger] self.timed_cell(
            arena,
            rem,
            j,
        ) by {
            assert(self.settling_cell(arena, rem, from, j));
            match arena.node(j).location {
                Location::Wheel(k, s) => {
                    let tau = arena.node(j).timeout as int;
                    if !self.placed(k as int, s as int, tau, rem(j)) {
                        assert(self.ready(k as int, s as int, tau, rem(j)));
                        let u = self.unit@[k as int] as int;
                        assert(self.level_ok(k as int));
                        lemma_multiple(s as int, u);
                        lemma_mod_of_mod(self.pos as int, u, Self::count(k as int));
                        self.lemma_divides_down(self.pos as int, from, k as int);
                    }
                },
                Location::Heap(_) => {},
            }
        }
    }

    /// Hands the entries of the slot of level `k` that the position has just
    /// entered down to the levels below, each to the slot in which it belongs.
    fn cascade<T>(
        &mut self,
        arena: &mut Arena<T>,
        k: usize,
        Ghost(members): Ghost<Set<int>>,
        Ghost(rem): Ghost<spec_fn(int) -> int>,
    )
        requires
            old(arena).wf(),
            old(self).tracks(old(arena), members),
            1 <= k <= L,
            old(self).pos as int % (old(self).unit@[k as int] as int) == 0,
            old(self).settling(old(arena), members, rem, k as int),
        ensures
            final(arena).wf(),
            final(self).tracks(final(arena), members),
            final(self).settling(final(arena), members, rem, k + 1),
            old(self).same_frame(final(self)),
            old(arena).reshuffled(final(arena)),
    {
        proof {
            assert(self.level_ok(k as int));
            self.lemma_unit_grows(0, k as int);
            self.lemma_unit_grows(k as int, L + 1);
            lemma_mod_of_mod(self.pos as int, self.unit@[k as int] as int, Self::count(k as int));
        }
        let u: usize = self.unit[k];
        let m: usize = self.unit[k + 1];
        let lp: usize = self.pos % m;
        let s: usize = lp / u;
        proof {
            lemma_exact(lp as int, u as int);
            lemma_slot_facts(lp as int, u as int, Self::count(k as int));
            assert forall|j: int| #[trigger] old(arena).kept_any(arena, j) by {}
        }
        loop
            invariant
                arena.wf(),
                self.tracks(arena, members),
                self.settling(arena, members, rem, k as int),
                old(self).same_frame(self),
                old(arena).reshuffled(arena),
                1 <= k <= L,
                u == self.unit@[k as int],
                u >= 1,
                u <= self.epoch(),
                m == self.unit@[k + 1],
                m == u * Self::count(k as int),
                lp == self.pos as int % (m as int),
                s * u == lp,
                Self::valid_slot(k as int, s as int),
            ensures
                self.list(k as int, s as int).len() == 0,
            decreases self.list(k as int, s as int).len(),
        {
            let ghost a0 = *arena;
            let ghost w0 = *self;
            match self.take_front(arena, k, s, Ghost(members)) {
                None => {
                    break ;
                },
                Some(h) => {
                    let ghost m1 = members.remove(h as int);
                    let ghost a1 = *arena;
                    let ghost w1 = *self;
                    let tau = arena.timeout(h);
                    proof {
                        assert(w0.settling_cell(&a0, rem, k as int, h as int));
                        lemma_slot_facts(tau as int, u as int, Self::count(k as int));
                        assert(w0.ready(k as int, s as int, tau as int, rem(h as int)));
                    }
                    let r: usize = tau - lp;
                    let (k2, s2, tau2) = self.locate(r);
                    proof {
                        if k2 >= k {
                            self.lemma_unit_grows(k as int, k2 as int);
                        }
                        assert(self.on(arena, h as int) ==> m1.contains(h as int));
                    }
                    self.attach(arena, k2, s2, h, tau2, Ghost(m1));
                    proof {
                        assert(m1.insert(h as int) =~= members);
                        a0.lemma_relinked_twice(&a1, arena, h as int);
                        a0.lemma_relinked_reshuffled(arena, h as int);
                        old(arena).lemma_reshuffled_twice(&a0, arena);
                        assert forall|j: int| members.contains(j) implies #[trigger] self.settling_cell(
                            arena,
                            rem,
                            k as int,
                            j,
                        ) by {
                            if j != h {
                                assert(w0.settling_cell(&a0, rem, k as int, j));
                                assert(a0.kept_links(arena, h as int, j));
                                assert(w0.on(&a0, j));
                            }
                        }
                    }
                },
            }
        }
        proof {
            assert forall|j: int| members.contains(j) implies #[trigger] self.settling_cell(
                arena,
                rem,
                k + 1,
                j,
            ) by {
                assert(self.settling_cell(arena, rem, k as int, j));
                assert(self.on(arena, j));
                match arena.node(j).location {
                    Location::Wheel(k3, s3) => {
                        if k3 == k && !self.placed(
                            k3 as int,
                            s3 as int,
                            arena.node(j).timeout as int,
                            rem(j),
                        ) {
                            assert(s3 * u == s * u);
                            assert(s3 == s) by (nonlinear_arith)
                                requires
                                    s3 * u == s * u,
                                    u >= 1,
                            ;
                        }
                    },
                    Location::Heap(_) => {},
                }
            }
        }
    }

    /// Moves the position forward by one tick and hands down the entries of
    /// every slot above level 0 that the position enters. Returns whether the
    /// position has wrapped round to the start of the epoch.
    pub(crate) fn roll<T>(
        &mut self,
        arena: &mut Arena<T>,
        Ghost(members): Ghost<Set<int>>,
        Ghost(rem): Ghost<spec_fn(int) -> int>,
    ) -> (wrapped: bool)
        requires
            old(arena).wf(),
            old(self).tracks(old(arena), members),
            old(self).timed(old(arena), members, rem),
        ensures
            final(arena).wf(),
            final(self).tracks(final(arena), members),
            final(self).timed(final(arena), members, Self::ticked(rem)),
            final(self).unit@ == old(self).unit@,
            final(self).pos == (if old(self).pos + 1 == old(self).epoch() {
                0
            } else {
                old(self).pos + 1
            }),
            wrapped == (final(self).pos == 0),
            old(arena).reshuffled(final(arena)),
    {
        let max = self.max_time();
        self.pos = if self.pos + 1 == max {
            0
        } else {
            self.pos + 1
        };
        let ghost rem2 = Self::ticked(rem);
        let ghost w1 = *self;
        proof {
            old(self).lemma_tracks_moved(self, arena, members);
            old(self).lemma_tick_all(self, arena, members, rem);
            assert forall|j: int| #[trigger] old(arena).kept_any(arena, j) by {}
            assert forall|i: int| 0 <= i <= L + 1 implies (#[trigger] self.unit@[i]) >= 1 by {
                self.lemma_unit_grows(i, i);
            }
        }
        let mut k: usize = 1;
        while k <= L && self.pos % self.unit[k] == 0
            invariant
                arena.wf(),
                self.tracks(arena, members),
                self.settling(arena, members, rem2, k as int),
                w1.same_frame(self),
                old(arena).reshuffled(arena),
                1 <= k <= L + 1,
                forall|i: int| 0 <= i <= L + 1 ==> (#[trigger] self.unit@[i]) >= 1,
            decreases L + 1 - k,
        {
            let ghost a0 = *arena;
            self.cascade(arena, k, Ghost(members), Ghost(rem2));
            proof {
                old(arena).lemma_reshuffled_twice(&a0, arena);
            }
            k = k + 1;
        }
        proof {
            self.lemma_settled(arena, members, rem2, k as int);
        }
        self.pos == 0
    }
}

} // verus!
