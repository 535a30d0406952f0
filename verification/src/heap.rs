//! The overflow heap: a binary min-heap of (tick, cell) pairs for entries
//! whose delay does not fit into the wheel.
//!
//! The heap is a dense array ordered by tick, smallest first. Whenever an
//! element moves to another array position, the heap writes the new position
//! into the place tag of the element's arena cell, so that cancelling an
//! entry finds it without a search.

use vstd::prelude::*;
use crate::arena::{Arena, Location, Node};

verus! {

/// One heap element: the tick at which the entry fires, counted from the
/// start of the current epoch of the wheel, and the arena cell of the entry.
#[derive(Clone, Copy)]
pub(crate) struct HeapEntry {
    pub(crate) tick: u128,
    pub(crate) idx: usize,
}

/// The heap.
pub(crate) struct Heap {
    pub(crate) entries: Vec<HeapEntry>,
}

impl<T> Arena<T> {
    /// Cell `j` is the same in `next`, but for its place tag if `j` is in `who`.
    pub(crate) open spec fn kept(&self, next: &Self, who: Set<int>, j: int) -> bool {
        &&& next.occupied(j) == self.occupied(j)
        &&& self.occupied(j) ==> next.node(j) == (Node {
            location: next.node(j).location,
            ..self.node(j)
        })
        &&& !who.contains(j) ==> next.slot(j) == self.slot(j)
    }

    /// `next` is `self` with new place tags for some of the cells in `who`:
    /// nothing else differs.
    pub(crate) open spec fn relocated(&self, next: &Self, who: Set<int>) -> bool {
        &&& next.issued == self.issued
        &&& forall|j: int| #[trigger] self.kept(next, who, j)
    }

    /// Retagging twice is retagging once.
    pub(crate) proof fn lemma_relocated_twice(&self, mid: &Self, next: &Self, who: Set<int>)
        requires
            self.relocated(mid, who),
            mid.relocated(next, who),
        ensures
            self.relocated(next, who),
    {
        assert forall|j: int| #[trigger] self.kept(next, who, j) by {
            assert(self.kept(mid, who, j));
            assert(mid.kept(next, who, j));
        }
    }

    /// Writing one place tag is a retagging of that cell.
    pub(crate) proof fn lemma_relocated_one(&self, next: &Self, i: int, who: Set<int>)
        requires
            self.occupied(i),
            next.issued == self.issued,
            next.slot(i) == Some(Node { location: next.node(i).location, ..self.node(i) }),
            self.same_but(next, i),
            who.contains(i),
        ensures
            self.relocated(next, who),
    {
        assert forall|j: int| #[trigger] self.kept(next, who, j) by {
            if j != i {
                assert(next.slot(j) == self.slot(j));
            }
        }
    }
}

impl Heap {
    /// The arena cell of the element at position `p`.
    pub(crate) open spec fn cell(&self, p: int) -> int {
        self.entries@[p].idx as int
    }

    /// The element at `p` is no smaller than its parent.
    pub(crate) open spec fn le_parent(&self, p: int) -> bool {
        self.entries@[(p - 1) / 2].tick <= self.entries@[p].tick
    }

    /// The element at `p` is no smaller than the parent of its parent.
    pub(crate) open spec fn le_grand(&self, p: int) -> bool {
        self.entries@[((p - 1) / 2 - 1) / 2].tick <= self.entries@[p].tick
    }

    /// Every element but the root is no smaller than its parent.
    pub(crate) open spec fn ordered(&self) -> bool {
        forall|p: int| 1 <= p < self.entries@.len() ==> #[trigger] self.le_parent(p)
    }

    /// The element at `c` may be too small for its place, nothing else is wrong.
    pub(crate) open spec fn ordered_but_up(&self, c: int) -> bool {
        &&& forall|p: int| 1 <= p < self.entries@.len() && p != c ==> #[trigger] self.le_parent(p)
        &&& forall|p: int|
            1 <= c && 1 <= p < self.entries@.len() && (p - 1) / 2 == c ==> #[trigger] self.le_grand(
                p,
            )
    }

    /// The element at `c` may be too large for its place, nothing else is wrong.
    pub(crate) open spec fn ordered_but_down(&self, c: int) -> bool {
        &&& forall|p: int|
            1 <= p < self.entries@.len() && (p - 1) / 2 != c ==> #[trigger] self.le_parent(p)
        &&& forall|p: int|
            1 <= c && 1 <= p < self.entries@.len() && (p - 1) / 2 == c ==> #[trigger] self.le_grand(
                p,
            )
    }

    /// The place tag of the cell of the element at `p` names `p`.
    pub(crate) open spec fn tagged<T>(&self, arena: &Arena<T>, p: int) -> bool {
        &&& arena.occupied(self.cell(p))
        &&& arena.node(self.cell(p)).location == Location::Heap(p as usize)
    }

    /// The place tag of every element's cell names the element's position.
    pub(crate) open spec fn indexed<T>(&self, arena: &Arena<T>) -> bool {
        forall|p: int| 0 <= p < self.entries@.len() ==> #[trigger] self.tagged(arena, p)
    }

    /// Cell `j` is in the heap, at the position that its place tag names.
    pub(crate) open spec fn at<T>(&self, arena: &Arena<T>, j: int) -> bool {
        &&& arena.occupied(j)
        &&& match arena.node(j).location {
            Location::Heap(p) => p < self.entries@.len() && self.cell(p as int) == j,
            Location::Wheel(_, _) => false,
        }
    }

    /// The heap holds exactly the cells in `members`, each at the position
    /// that its place tag names.
    pub(crate) open spec fn tracks<T>(&self, arena: &Arena<T>, members: Set<int>) -> bool {
        &&& self.indexed(arena)
        &&& forall|p: int|
            0 <= p < self.entries@.len() ==> members.contains(#[trigger] self.cell(p))
        &&& forall|j: int| #[trigger] members.contains(j) ==> self.at(arena, j)
    }

    /// The element at `p` satisfies `good`.
    pub(crate) open spec fn good_at(&self, good: spec_fn(HeapEntry) -> bool, p: int) -> bool {
        good(self.entries@[p])
    }

    /// Every element satisfies `good`.
    pub(crate) open spec fn all_good(&self, good: spec_fn(HeapEntry) -> bool) -> bool {
        forall|p: int| 0 <= p < self.entries@.len() ==> #[trigger] self.good_at(good, p)
    }

    /// In an ordered heap no element is smaller than the root.
    pub(crate) proof fn lemma_root_is_min(&self, p: int)
        requires
            self.ordered(),
            0 <= p < self.entries@.len(),
        ensures
            self.entries@[0].tick <= self.entries@[p].tick,
        decreases p,
    {
        if p >= 1 {
            assert(self.le_parent(p));
            self.lemma_root_is_min((p - 1) / 2);
        }
    }

    /// Two elements of a tracked heap are in different cells.
    pub(crate) proof fn lemma_cells_differ<T>(
        &self,
        arena: &Arena<T>,
        members: Set<int>,
        p: int,
        q: int,
    )
        requires
            self.tracks(arena, members),
            0 <= p < self.entries@.len(),
            0 <= q < self.entries@.len(),
            p != q,
        ensures
            self.cell(p) != self.cell(q),
    {
        assert(self.entries.len() == self.entries@.len());
        assert(self.tagged(arena, p));
        assert(self.tagged(arena, q));
    }

    /// A member of a tracked heap sits at the position that its tag names.
    pub(crate) proof fn lemma_member_position<T>(
        &self,
        arena: &Arena<T>,
        members: Set<int>,
        p: int,
    )
        requires
            self.tracks(arena, members),
            0 <= p < self.entries@.len(),
        ensures
            members.contains(self.cell(p)),
            arena.occupied(self.cell(p)),
            arena.node(self.cell(p)).location == Location::Heap(p as usize),
    {
        assert(self.tagged(arena, p));
        assert(members.contains(self.cell(p)));
    }

    /// A heap whose cells are untouched keeps track of them.
    pub(crate) proof fn lemma_tracks_frame<T>(
        &self,
        next: &Self,
        before: &Arena<T>,
        after: &Arena<T>,
        members: Set<int>,
    )
        requires
            self.tracks(before, members),
            next.entries@.len() == self.entries@.len(),
            forall|p: int| 0 <= p < self.entries@.len() ==> #[trigger] next.cell(p) == self.cell(p),
            forall|j: int| members.contains(j) ==> #[trigger] after.slot(j) == before.slot(j),
        ensures
            next.tracks(after, members),
    {
        assert forall|p: int| 0 <= p < next.entries@.len() implies #[trigger] next.tagged(
            after,
            p,
        ) by {
            assert(self.tagged(before, p));
            assert(next.cell(p) == self.cell(p));
            assert(members.contains(self.cell(p)));
            assert(after.slot(self.cell(p)) == before.slot(self.cell(p)));
        }
        assert forall|p: int| 0 <= p < next.entries@.len() implies members.contains(
            #[trigger] next.cell(p),
        ) by {
            assert(next.cell(p) == self.cell(p));
            assert(members.contains(self.cell(p)));
        }
        assert forall|j: int| #[trigger] members.contains(j) implies next.at(after, j) by {
            assert(self.at(before, j));
            assert(after.slot(j) == before.slot(j));
            let q = before.node(j).location->Heap_0 as int;
            assert(next.cell(q) == self.cell(q));
        }
    }

    /// What holds of every element under one reading holds under every
    /// reading that agrees with it on the elements.
    pub(crate) proof fn lemma_good_carry(
        &self,
        next: &Self,
        good: spec_fn(HeapEntry) -> bool,
        good2: spec_fn(HeapEntry) -> bool,
    )
        requires
            self.all_good(good),
            next.entries@ == self.entries@,
            forall|p: int|
                0 <= p < self.entries@.len() && good(#[trigger] self.entries@[p]) ==> good2(
                    self.entries@[p],
                ),
        ensures
            next.all_good(good2),
    {
        assert forall|p: int| 0 <= p < next.entries@.len() implies #[trigger] next.good_at(
            good2,
            p,
        ) by {
            assert(self.good_at(good, p));
        }
    }

    /// An empty heap.
    pub(crate) fn new() -> (h: Self)
        ensures
            h.entries@.len() == 0,
            h.ordered(),
    {
        Heap { entries: Vec::new() }
    }

    /// The number of elements.
    pub(crate) fn len(&self) -> (n: usize)
        ensures
            n == self.entries@.len(),
    {
        self.entries.len()
    }

    /// The smallest element, if there is one.
    pub(crate) fn peek(&self) -> (e: Option<HeapEntry>)
        ensures
            self.entries@.len() == 0 ==> e is None,
            self.entries@.len() > 0 ==> e == Some(self.entries@[0]),
    {
        if self.entries.len() == 0 {
            None
        } else {
            Some(self.entries[0])
        }
    }

    /// Puts `e` at position `p` and writes `p` into the place tag of its cell.
    fn place<T>(&mut self, arena: &mut Arena<T>, p: usize, e: HeapEntry, Ghost(who): Ghost<Set<int>>)
        requires
            old(arena).wf(),
            p < old(self).entries@.len(),
            old(arena).occupied(e.idx as int),
            who.contains(e.idx as int),
        ensures
            final(arena).wf(),
            final(self).entries@ == old(self).entries@.update(p as int, e),
            old(arena).relocated(final(arena), who),
            old(arena).same_but(final(arena), e.idx as int),
            final(arena).occupied(e.idx as int),
            final(arena).node(e.idx as int).location == Location::Heap(p),
    {
        self.entries[p] = e;
        arena.set_location(e.idx, Location::Heap(p));
        proof {
            old(arena).lemma_relocated_one(arena, e.idx as int, who);
        }
    }

    /// Exchanges the elements at `a` and `b` and rewrites both place tags.
    fn swap_entries<T>(
        &mut self,
        arena: &mut Arena<T>,
        a: usize,
        b: usize,
        Ghost(members): Ghost<Set<int>>,
    )
        requires
            old(arena).wf(),
            old(self).tracks(old(arena), members),
            a < old(self).entries@.len(),
            b < old(self).entries@.len(),
            a != b,
        ensures
            final(arena).wf(),
            final(self).tracks(final(arena), members),
            final(self).entries@ == old(self).entries@.update(
                a as int,
                old(self).entries@[b as int],
            ).update(b as int, old(self).entries@[a as int]),
            old(arena).relocated(final(arena), members),
    {
        let ea = self.entries[a];
        let eb = self.entries[b];
        proof {
            self.lemma_member_position(arena, members, a as int);
            self.lemma_member_position(arena, members, b as int);
            self.lemma_cells_differ(arena, members, a as int, b as int);
        }
        self.place(arena, a, eb, Ghost(members));
        let ghost mid = *arena;
        self.place(arena, b, ea, Ghost(members));
        proof {
            old(arena).lemma_relocated_twice(&mid, arena, members);
            assert forall|p: int| 0 <= p < self.entries@.len() implies #[trigger] self.tagged(
                arena,
                p,
            ) by {
                if p != a && p != b {
                    old(self).lemma_member_position(old(arena), members, p);
                    old(self).lemma_cells_differ(old(arena), members, p, a as int);
                    old(self).lemma_cells_differ(old(arena), members, p, b as int);
                    assert(self.cell(p) == old(self).cell(p));
                    assert(mid.slot(self.cell(p)) == old(arena).slot(self.cell(p)));
                    assert(arena.slot(self.cell(p)) == mid.slot(self.cell(p)));
                } else if p == a {
                    assert(self.cell(p) == eb.idx);
                    assert(arena.slot(eb.idx as int) == mid.slot(eb.idx as int));
                } else {
                    assert(self.cell(p) == ea.idx);
                }
            }
            assert forall|p: int| 0 <= p < self.entries@.len() implies members.contains(
                #[trigger] self.cell(p),
            ) by {
                if p != a && p != b {
                    assert(self.cell(p) == old(self).cell(p));
                }
            }
            assert forall|j: int| #[trigger] members.contains(j) implies self.at(arena, j) by {
                assert(old(self).at(old(arena), j));
                let q = old(arena).node(j).location->Heap_0 as int;
                assert(old(self).tagged(old(arena), q));
                if q == a {
                    assert(j == ea.idx);
                    assert(self.cell(b as int) == j);
                } else if q == b {
                    assert(j == eb.idx);
                    assert(arena.slot(eb.idx as int) == mid.slot(eb.idx as int));
                    assert(self.cell(a as int) == j);
                } else {
                    old(self).lemma_cells_differ(old(arena), members, q, a as int);
                    old(self).lemma_cells_differ(old(arena), members, q, b as int);
                    assert(mid.slot(j) == old(arena).slot(j));
                    assert(arena.slot(j) == mid.slot(j));
                    assert(self.cell(q) == j);
                }
            }
        }
    }

    /// Moves the element at `start` towards the root until its parent is no
    /// larger. Returns the position where it comes to rest.
    fn sift_up<T>(
        &mut self,
        arena: &mut Arena<T>,
        start: usize,
        Ghost(members): Ghost<Set<int>>,
        Ghost(good): Ghost<spec_fn(HeapEntry) -> bool>,
    ) -> (c: usize)
        requires
            old(arena).wf(),
            old(self).tracks(old(arena), members),
            old(self).all_good(good),
            start < old(self).entries@.len(),
            old(self).ordered_but_up(start as int),
        ensures
            final(arena).wf(),
            final(self).tracks(final(arena), members),
            final(self).all_good(good),
            final(self).ordered(),
            final(self).entries@.len() == old(self).entries@.len(),
            old(arena).relocated(final(arena), members),
            c <= start,
            final(self).entries@[c as int] == old(self).entries@[start as int],
    {
        let mut c: usize = start;
        proof {
            assert forall|j: int| #[trigger] old(arena).kept(arena, members, j) by {}
        }
        while c > 0
            invariant_except_break
                self.ordered_but_up(c as int),
            invariant
                arena.wf(),
                self.tracks(arena, members),
                self.all_good(good),
                self.entries@.len() == old(self).entries@.len(),
                old(arena).relocated(arena, members),
                c <= start,
                start < old(self).entries@.len(),
                self.entries@[c as int] == old(self).entries@[start as int],
            ensures
                self.ordered(),
            decreases c,
        {
            let parent: usize = (c - 1) / 2;
            if self.entries[parent].tick <= self.entries[c].tick {
                proof {
                    assert forall|p: int| 1 <= p < self.entries@.len() implies #[trigger] self.le_parent(
                        p,
                    ) by {}
                }
                break ;
            }
            let ghost before = *self;
            let ghost mid = *arena;
            self.swap_entries(arena, parent, c, Ghost(members));
            proof {
                old(arena).lemma_relocated_twice(&mid, arena, members);
                assert forall|p: int| 0 <= p < self.entries@.len() implies #[trigger] self.good_at(
                    good,
                    p,
                ) by {
                    assert(before.good_at(good, p));
                    assert(before.good_at(good, c as int));
                    assert(before.good_at(good, parent as int));
                }
                assert forall|p: int|
                    1 <= p < self.entries@.len() && p != parent implies #[trigger] self.le_parent(
                    p,
                ) by {
                    if p == c {
                    } else if (p - 1) / 2 == c {
                        assert(before.le_grand(p));
                    } else {
                        assert(before.le_parent(p));
                    }
                }
                assert forall|p: int|
                    1 <= parent && 1 <= p < self.entries@.len() && (p - 1) / 2
                        == parent implies #[trigger] self.le_grand(p) by {
                    assert(before.le_parent(parent as int));
                    if p != c {
                        assert(before.le_parent(p));
                    }
                }
            }
            c = parent;
        }
        proof {
            if c == 0 {
                assert forall|p: int| 1 <= p < self.entries@.len() implies #[trigger] self.le_parent(
                    p,
                ) by {}
            }
        }
        c
    }

    /// Moves the element at `start` away from the root until no child is smaller.
    fn sift_down<T>(
        &mut self,
        arena: &mut Arena<T>,
        start: usize,
        Ghost(members): Ghost<Set<int>>,
        Ghost(good): Ghost<spec_fn(HeapEntry) -> bool>,
    )
        requires
            old(arena).wf(),
            old(self).tracks(old(arena), members),
            old(self).all_good(good),
            start < old(self).entries@.len(),
            old(self).ordered_but_down(start as int),
        ensures
            final(arena).wf(),
            final(self).tracks(final(arena), members),
            final(self).all_good(good),
            final(self).ordered(),
            final(self).entries@.len() == old(self).entries@.len(),
            old(arena).relocated(final(arena), members),
    {
        let mut c: usize = start;
        let n: usize = self.entries.len();
        proof {
            assert forall|j: int| #[trigger] old(arena).kept(arena, members, j) by {}
        }
        while c < n / 2
            invariant_except_break
                self.ordered_but_down(c as int),
            invariant
                arena.wf(),
                self.tracks(arena, members),
                self.all_good(good),
                self.entries@.len() == n,
                n == old(self).entries@.len(),
                old(arena).relocated(arena, members),
                c < n,
            ensures
                self.ordered(),
            decreases n - c,
        {
            let mut child: usize = 2 * c + 1;
            if child + 1 < n && self.entries[child + 1].tick < self.entries[child].tick {
                child = child + 1;
            }
            if self.entries[c].tick <= self.entries[child].tick {
                proof {
                    assert forall|p: int| 1 <= p < self.entries@.len() implies #[trigger] self.le_parent(
                        p,
                    ) by {
                        if (p - 1) / 2 == c {
                            assert(p == 2 * c + 1 || p == 2 * c + 2);
                        }
                    }
                }
                break ;
            }
            let ghost before = *self;
            let ghost mid = *arena;
            self.swap_entries(arena, c, child, Ghost(members));
            proof {
                old(arena).lemma_relocated_twice(&mid, arena, members);
                assert forall|p: int| 0 <= p < self.entries@.len() implies #[trigger] self.good_at(
                    good,
                    p,
                ) by {
                    assert(before.good_at(good, p));
                    assert(before.good_at(good, c as int));
                    assert(before.good_at(good, child as int));
                }
                assert forall|p: int|
                    1 <= p < self.entries@.len() && (p - 1) / 2
                        != child implies #[trigger] self.le_parent(p) by {
                    if p == c {
                        if c >= 1 {
                            assert(before.le_grand(child as int));
                        }
                    } else if (p - 1) / 2 == c {
                        assert(p == 2 * c + 1 || p == 2 * c + 2);
                    } else {
                        assert(before.le_parent(p));
                    }
                }
                assert forall|p: int|
                    1 <= child && 1 <= p < self.entries@.len() && (p - 1) / 2
                        == child implies #[trigger] self.le_grand(p) by {
                    assert(before.le_parent(p));
                }
            }
            c = child;
        }
        proof {
            if c >= n / 2 {
                assert forall|p: int| 1 <= p < self.entries@.len() implies #[trigger] self.le_parent(
                    p,
                ) by {
                    assert((p - 1) / 2 != c);
                }
            }
        }
    }

    /// Adds the element `(tick, idx)`. The cell `idx` must hold an entry that
    /// is in no container yet. Returns the position where the element comes
    /// to rest; the place tag of every element that moved is rewritten.
    pub(crate) fn push<T>(
        &mut self,
        arena: &mut Arena<T>,
        tick: u128,
        idx: usize,
        Ghost(members): Ghost<Set<int>>,
        Ghost(good): Ghost<spec_fn(HeapEntry) -> bool>,
    ) -> (loc: usize)
        requires
            old(arena).wf(),
            old(self).tracks(old(arena), members),
            old(self).all_good(good),
            old(self).ordered(),
            old(arena).occupied(idx as int),
            !members.contains(idx as int),
            good(HeapEntry { tick, idx }),
        ensures
            final(arena).wf(),
            final(self).tracks(final(arena), members.insert(idx as int)),
            final(self).all_good(good),
            final(self).ordered(),
            final(self).entries@.len() == old(self).entries@.len() + 1,
            old(arena).relocated(final(arena), members.insert(idx as int)),
            loc < final(self).entries@.len(),
            final(self).entries@[loc as int] == (HeapEntry { tick, idx }),
    {
        let last: usize = self.entries.len();
        let ghost m2 = members.insert(idx as int);
        self.entries.push(HeapEntry { tick, idx });
        let ghost grown = *self;
        self.place(arena, last, HeapEntry { tick, idx }, Ghost(m2));
        let ghost mid = *arena;
        proof {
            assert(self.entries@ =~= grown.entries@);
            assert forall|p: int| 0 <= p < self.entries@.len() implies #[trigger] self.tagged(
                arena,
                p,
            ) by {
                if p < last {
                    old(self).lemma_member_position(old(arena), members, p);
                    assert(self.cell(p) == old(self).cell(p));
                    assert(arena.slot(self.cell(p)) == old(arena).slot(self.cell(p)));
                }
            }
            assert forall|p: int| 0 <= p < self.entries@.len() implies m2.contains(
                #[trigger] self.cell(p),
            ) by {
                if p < last {
                    assert(self.cell(p) == old(self).cell(p));
                    assert(members.contains(old(self).cell(p)));
                }
            }
            assert forall|j: int| #[trigger] m2.contains(j) implies self.at(arena, j) by {
                if j != idx {
                    assert(members.contains(j));
                    assert(old(self).at(old(arena), j));
                    assert(arena.slot(j) == old(arena).slot(j));
                    let q = old(arena).node(j).location->Heap_0 as int;
                    assert(self.cell(q) == old(self).cell(q));
                } else {
                    assert(self.cell(last as int) == idx);
                }
            }
            assert forall|p: int| 0 <= p < self.entries@.len() implies #[trigger] self.good_at(
                good,
                p,
            ) by {
                if p < last {
                    assert(old(self).good_at(good, p));
                    assert(self.entries@[p] == old(self).entries@[p]);
                }
            }
            assert forall|p: int|
                1 <= p < self.entries@.len() && p != last implies #[trigger] self.le_parent(p) by {
                assert(old(self).le_parent(p));
                assert(self.entries@[p] == old(self).entries@[p]);
                assert(self.entries@[(p - 1) / 2] == old(self).entries@[(p - 1) / 2]);
            }
        }
        let loc = self.sift_up(arena, last, Ghost(m2), Ghost(good));
        proof {
            old(arena).lemma_relocated_twice(&mid, arena, m2);
        }
        loc
    }

    /// Puts the last element at position `pos` and shortens the array by one.
    /// The cell of the element that was at `pos` is left as it is.
    fn displace<T>(
        &mut self,
        arena: &mut Arena<T>,
        pos: usize,
        Ghost(members): Ghost<Set<int>>,
        Ghost(good): Ghost<spec_fn(HeapEntry) -> bool>,
    ) -> (e: HeapEntry)
        requires
            old(arena).wf(),
            old(self).tracks(old(arena), members),
            old(self).all_good(good),
            old(self).ordered(),
            pos < old(self).entries@.len(),
        ensures
            final(arena).wf(),
            e == old(self).entries@[pos as int],
            final(self).tracks(final(arena), members.remove(e.idx as int)),
            final(self).all_good(good),
            final(self).entries@.len() + 1 == old(self).entries@.len(),
            old(arena).relocated(final(arena), members.remove(e.idx as int)),
            pos < final(self).entries@.len() ==> final(self).entries@ == old(
                self,
            ).entries@.drop_last().update(pos as int, old(self).entries@.last()),
            pos == final(self).entries@.len() ==> final(self).entries@ == old(
                self,
            ).entries@.drop_last(),
    {
        let last: usize = self.entries.len() - 1;
        let e = self.entries[pos];
        let ghost m2 = members.remove(e.idx as int);
        proof {
            self.lemma_member_position(arena, members, pos as int);
            self.lemma_member_position(arena, members, last as int);
            assert forall|j: int| #[trigger] old(arena).kept(arena, m2, j) by {}
        }
        if pos != last {
            let moved = self.entries[last];
            proof {
                self.lemma_cells_differ(arena, members, pos as int, last as int);
            }
            self.place(arena, pos, moved, Ghost(m2));
        }
        self.entries.pop();
        proof {
            assert forall|p: int| 0 <= p < self.entries@.len() implies #[trigger] self.tagged(
                arena,
                p,
            ) by {
                if p != pos {
                    old(self).lemma_member_position(old(arena), members, p);
                    old(self).lemma_cells_differ(old(arena), members, p, last as int);
                    assert(self.cell(p) == old(self).cell(p));
                    assert(arena.slot(self.cell(p)) == old(arena).slot(self.cell(p)));
                }
            }
            assert forall|p: int| 0 <= p < self.entries@.len() implies m2.contains(
                #[trigger] self.cell(p),
            ) by {
                if p != pos {
                    old(self).lemma_cells_differ(old(arena), members, p, pos as int);
                    assert(self.cell(p) == old(self).cell(p));
                    assert(members.contains(old(self).cell(p)));
                } else {
                    old(self).lemma_cells_differ(old(arena), members, last as int, pos as int);
                    assert(self.cell(p) == old(self).cell(last as int));
                    assert(members.contains(old(self).cell(last as int)));
                }
            }
            assert forall|j: int| #[trigger] m2.contains(j) implies self.at(arena, j) by {
                assert(members.contains(j));
                assert(old(self).at(old(arena), j));
                let q = old(arena).node(j).location->Heap_0 as int;
                assert(old(self).tagged(old(arena), q));
                assert(q != pos);
                if q == last {
                    assert(self.cell(pos as int) == j);
                } else {
                    old(self).lemma_cells_differ(old(arena), members, q, last as int);
                    assert(arena.slot(j) == old(arena).slot(j));
                    assert(self.cell(q) == j);
                }
            }
            assert forall|p: int| 0 <= p < self.entries@.len() implies #[trigger] self.good_at(
                good,
                p,
            ) by {
                assert(old(self).good_at(good, p));
                assert(old(self).good_at(good, last as int));
            }
            if pos < last {
                assert(self.entries@ =~= old(self).entries@.drop_last().update(
                    pos as int,
                    old(self).entries@.last(),
                ));
            } else {
                assert(self.entries@ =~= old(self).entries@.drop_last());
            }
        }
        e
    }

    /// Takes out the element at position `pos`: the last element takes its
    /// place and is moved up or down to restore the order. The cell of the
    /// element taken out is left as it is.
    pub(crate) fn remove<T>(
        &mut self,
        arena: &mut Arena<T>,
        pos: usize,
        Ghost(members): Ghost<Set<int>>,
        Ghost(good): Ghost<spec_fn(HeapEntry) -> bool>,
    ) -> (e: HeapEntry)
        requires
            old(arena).wf(),
            old(self).tracks(old(arena), members),
            old(self).all_good(good),
            old(self).ordered(),
            pos < old(self).entries@.len(),
        ensures
            final(arena).wf(),
            e == old(self).entries@[pos as int],
            final(self).tracks(final(arena), members.remove(e.idx as int)),
            final(self).all_good(good),
            final(self).ordered(),
            final(self).entries@.len() + 1 == old(self).entries@.len(),
            old(arena).relocated(final(arena), members.remove(e.idx as int)),
    {
        let e = self.displace(arena, pos, Ghost(members), Ghost(good));
        let ghost m2 = members.remove(e.idx as int);
        let ghost mid = *arena;
        if pos < self.entries.len() {
            if pos > 0 && self.entries[pos].tick < self.entries[(pos - 1) / 2].tick {
                proof {
                    assert forall|p: int|
                        1 <= p < self.entries@.len() && p != pos implies #[trigger] self.le_parent(
                        p,
                    ) by {
                        assert(old(self).le_parent(p));
                        if (p - 1) / 2 == pos {
                            assert(old(self).le_parent(pos as int));
                        }
                    }
                    assert forall|p: int|
                        1 <= pos && 1 <= p < self.entries@.len() && (p - 1) / 2
                            == pos implies #[trigger] self.le_grand(p) by {
                        assert(old(self).le_parent(p));
                        assert(old(self).le_parent(pos as int));
                    }
                }
                self.sift_up(arena, pos, Ghost(m2), Ghost(good));
            } else {
                proof {
                    assert forall|p: int|
                        1 <= p < self.entries@.len() && (p - 1) / 2
                            != pos implies #[trigger] self.le_parent(p) by {
                        if p != pos {
                            assert(old(self).le_parent(p));
                        }
                    }
                    assert forall|p: int|
                        1 <= pos && 1 <= p < self.entries@.len() && (p - 1) / 2
                            == pos implies #[trigger] self.le_grand(p) by {
                        assert(old(self).le_parent(p));
                        assert(old(self).le_parent(pos as int));
                    }
                }
                self.sift_down(arena, pos, Ghost(m2), Ghost(good));
            }
            proof {
                old(arena).lemma_relocated_twice(&mid, arena, m2);
            }
        } else {
            proof {
                assert forall|p: int| 1 <= p < self.entries@.len() implies #[trigger] self.le_parent(
                    p,
                ) by {
                    assert(old(self).le_parent(p));
                }
            }
        }
        e
    }

    /// Takes out the smallest element, if there is one.
    pub(crate) fn pop<T>(
        &mut self,
        arena: &mut Arena<T>,
        Ghost(members): Ghost<Set<int>>,
        Ghost(good): Ghost<spec_fn(HeapEntry) -> bool>,
    ) -> (r: Option<HeapEntry>)
        requires
            old(arena).wf(),
            old(self).tracks(old(arena), members),
            old(self).all_good(good),
            old(self).ordered(),
        ensures
            final(arena).wf(),
            final(self).all_good(good),
            final(self).ordered(),
            match r {
                Some(e) => {
                    &&& old(self).entries@.len() > 0
                    &&& e == old(self).entries@[0]
                    &&& final(self).tracks(final(arena), members.remove(e.idx as int))
                    &&& final(self).entries@.len() + 1 == old(self).entries@.len()
                    &&& old(arena).relocated(final(arena), members.remove(e.idx as int))
                },
                None => {
                    &&& old(self).entries@.len() == 0
                    &&& *final(self) == *old(self)
                    &&& *final(arena) == *old(arena)
                },
            },
    {
        if self.entries.len() == 0 {
            None
        } else {
            Some(self.remove(arena, 0, Ghost(members), Ghost(good)))
        }
    }

    /// Moves the origin of all ticks forward by `delta`: every tick shrinks
    /// by `delta`, no element moves.
    pub(crate) fn rebase(&mut self, delta: u128)
        requires
            old(self).ordered(),
            forall|p: int|
                0 <= p < old(self).entries@.len() ==> (#[trigger] old(self).entries@[p]).tick
                    >= delta,
        ensures
            final(self).ordered(),
            final(self).entries@.len() == old(self).entries@.len(),
            forall|p: int|
                0 <= p < old(self).entries@.len() ==> #[trigger] final(self).entries@[p] == (
                HeapEntry {
                    tick: (old(self).entries@[p].tick - delta) as u128,
                    idx: old(self).entries@[p].idx,
                }),
    {
        let n: usize = self.len();
        let mut i: usize = 0;
        while i < n
            invariant
                i <= n,
                n == old(self).entries@.len(),
                self.entries@.len() == n,
                forall|p: int|
                    0 <= p < n ==> (#[trigger] old(self).entries@[p]).tick >= delta,
                forall|p: int|
                    0 <= p < i ==> #[trigger] self.entries@[p] == (HeapEntry {
                        tick: (old(self).entries@[p].tick - delta) as u128,
                        idx: old(self).entries@[p].idx,
                    }),
                forall|p: int| i <= p < n ==> #[trigger] self.entries@[p] == old(self).entries@[p],
            decreases n - i,
        {
            let e = self.entries[i];
            assert(e == old(self).entries@[i as int]);
            self.entries[i] = HeapEntry { tick: e.tick - delta, idx: e.idx };
            i = i + 1;
        }
        proof {
            assert forall|p: int| 1 <= p < self.entries@.len() implies #[trigger] self.le_parent(
                p,
            ) by {
                assert(old(self).le_parent(p));
                assert(self.entries@[(p - 1) / 2].tick == old(self).entries@[(p - 1) / 2].tick
                    - delta);
                assert(self.entries@[p].tick == old(self).entries@[p].tick - delta);
            }
        }
    }
}

} // verus!
