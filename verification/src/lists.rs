//! The bucket lists of the wheel.
//!
//! The entries of one slot form a doubly linked list that is threaded
//! through the cells of the arena: the bucket of the slot names the first
//! and the last cell, and every cell names its neighbours. A ghost sequence
//! per slot records the cells of the list in order; the predicates below tie
//! the links and place tags in the arena to those sequences.

use vstd::prelude::*;
use crate::arena::{Arena, Location, Node};
use crate::wheel::{Bucket, Wheel};

verus! {

impl<T> Arena<T> {
    /// Cell `j` holds the same entry in `next`; if it is not cell `idx`, it
    /// is in the same place with the same fire time, and if it is in the heap
    /// it is the same altogether.
    pub(crate) open spec fn kept_links(&self, next: &Self, idx: int, j: int) -> bool {
        &&& next.occupied(j) == self.occupied(j)
        &&& self.occupied(j) ==> next.node(j).el == self.node(j).el && next.node(j).serial
            == self.node(j).serial
        &&& self.occupied(j) && j != idx ==> next.node(j).location == self.node(j).location
            && next.node(j).timeout == self.node(j).timeout
        &&& self.occupied(j) && j != idx && self.node(j).location is Heap ==> next.slot(j)
            == self.slot(j)
    }

    /// `next` is `self` with other list links, and with another place and
    /// fire time for cell `idx` at most.
    pub(crate) open spec fn relinked(&self, next: &Self, idx: int) -> bool {
        &&& next.issued == self.issued
        &&& forall|j: int| #[trigger] self.kept_links(next, idx, j)
    }

    /// Relinking twice is relinking once.
    pub(crate) proof fn lemma_relinked_twice(&self, mid: &Self, next: &Self, idx: int)
        requires
            self.relinked(mid, idx),
            mid.relinked(next, idx),
        ensures
            self.relinked(next, idx),
    {
        assert forall|j: int| #[trigger] self.kept_links(next, idx, j) by {
            assert(self.kept_links(mid, idx, j));
            assert(mid.kept_links(next, idx, j));
        }
    }

    /// Cell `j` holds the same entry in `next` and is in the same container;
    /// if that is the heap, the cell is the same altogether.
    pub(crate) open spec fn kept_any(&self, next: &Self, j: int) -> bool {
        &&& next.occupied(j) == self.occupied(j)
        &&& self.occupied(j) ==> next.node(j).el == self.node(j).el && next.node(j).serial
            == self.node(j).serial
        &&& self.occupied(j) && self.node(j).location is Heap ==> next.slot(j) == self.slot(j)
        &&& self.occupied(j) && self.node(j).location is Wheel ==> next.node(j).location is Wheel
    }

    /// `next` is `self` with the entries of the wheel moved among its lists.
    pub(crate) open spec fn reshuffled(&self, next: &Self) -> bool {
        &&& next.issued == self.issued
        &&& forall|j: int| #[trigger] self.kept_any(next, j)
    }

    /// Reshuffling twice is reshuffling once.
    pub(crate) proof fn lemma_reshuffled_twice(&self, mid: &Self, next: &Self)
        requires
            self.reshuffled(mid),
            mid.reshuffled(next),
        ensures
            self.reshuffled(next),
    {
        assert forall|j: int| #[trigger] self.kept_any(next, j) by {
            assert(self.kept_any(mid, j));
            assert(mid.kept_any(next, j));
        }
    }

    /// Moving one entry of the wheel to another list is a reshuffling.
    pub(crate) proof fn lemma_relinked_reshuffled(&self, next: &Self, idx: int)
        requires
            self.relinked(next, idx),
            self.occupied(idx) ==> self.node(idx).location is Wheel && next.node(
                idx,
            ).location is Wheel,
        ensures
            self.reshuffled(next),
    {
        assert forall|j: int| #[trigger] self.kept_any(next, j) by {
            assert(self.kept_links(next, idx, j));
        }
    }
}

impl<const N0: usize, const N: usize, const L: usize> Wheel<N0, N, L> {
    /// The link fields and the place tag of the `p`-th cell on the list of
    /// slot `(k, s)` say what the list says.
    pub(crate) open spec fn linked_elem<T>(&self, arena: &Arena<T>, k: int, s: int, p: int) -> bool {
        let l = self.list(k, s);
        let j = l[p] as int;
        &&& arena.occupied(j)
        &&& arena.node(j).location == Location::Wheel(k as usize, s as usize)
        &&& arena.node(j).prev == (if p == 0 {
            None
        } else {
            Some(l[p - 1])
        })
        &&& arena.node(j).next == (if p == l.len() - 1 {
            None
        } else {
            Some(l[p + 1])
        })
    }

    /// The list of slot `(k, s)` is threaded through the arena as the ghost
    /// sequence says, and the bucket names its two ends.
    pub(crate) open spec fn linked_at<T>(&self, arena: &Arena<T>, k: int, s: int) -> bool {
        let l = self.list(k, s);
        let b = self.bucket(k, s);
        &&& b.head == (if l.len() == 0 {
            None
        } else {
            Some(l[0])
        })
        &&& b.tail == (if l.len() == 0 {
            None
        } else {
            Some(l[l.len() - 1])
        })
        &&& l.no_duplicates()
        &&& forall|p: int| 0 <= p < l.len() ==> #[trigger] self.linked_elem(arena, k, s, p)
    }

    /// Every list is threaded through the arena as its ghost sequence says.
    pub(crate) open spec fn linked<T>(&self, arena: &Arena<T>) -> bool {
        &&& self.shaped()
        &&& forall|k: int, s: int|
            Self::valid_slot(k, s) ==> #[trigger] self.linked_at(arena, k, s)
    }

    /// Cell `idx` is on no list.
    pub(crate) open spec fn absent(&self, idx: usize) -> bool {
        forall|k: int, s: int|
            Self::valid_slot(k, s) ==> !(#[trigger] self.list(k, s)).contains(idx)
    }

    /// Every list is empty.
    pub(crate) open spec fn vacant(&self) -> bool {
        forall|k: int, s: int| Self::valid_slot(k, s) ==> (#[trigger] self.list(k, s)).len() == 0
    }

    /// The lists of `self` and `next` are the same but for slot `(k, s)`.
    pub(crate) open spec fn same_lists_but(&self, next: &Self, k: int, s: int) -> bool {
        forall|k2: int, s2: int|
            Self::valid_slot(k2, s2) && !(k2 == k && s2 == s) ==> #[trigger] next.list(k2, s2)
                == self.list(k2, s2)
    }

    /// A cell on a list is occupied and tagged with the slot of the list.
    pub(crate) proof fn lemma_member<T>(&self, arena: &Arena<T>, k: int, s: int, p: int)
        requires
            self.linked(arena),
            Self::valid_slot(k, s),
            0 <= p < self.list(k, s).len(),
        ensures
            arena.occupied(self.list(k, s)[p] as int),
            arena.node(self.list(k, s)[p] as int).location == Location::Wheel(
                k as usize,
                s as usize,
            ),
    {
        assert(self.linked_at(arena, k, s));
        assert(self.linked_elem(arena, k, s, p));
    }

    /// A cell that is vacant, or tagged with another place than the slot of
    /// a list, is not on that list.
    pub(crate) proof fn lemma_not_member<T>(&self, arena: &Arena<T>, k: int, s: int, idx: usize)
        requires
            self.linked(arena),
            Self::valid_slot(k, s),
            !arena.occupied(idx as int) || arena.node(idx as int).location != Location::Wheel(
                k as usize,
                s as usize,
            ),
        ensures
            !self.list(k, s).contains(idx),
    {
        if self.list(k, s).contains(idx) {
            let p = self.list(k, s).index_of(idx);
            self.lemma_member(arena, k, s, p);
        }
    }

    /// The first cell on the list of slot `(k, s)`, if there is one.
    pub(crate) fn front<T>(&self, Ghost(arena): Ghost<&Arena<T>>, k: usize, s: usize) -> (r: Option<
        usize,
    >)
        requires
            self.linked(arena),
            Self::valid_slot(k as int, s as int),
        ensures
            self.list(k as int, s as int).len() == 0 ==> r is None,
            self.list(k as int, s as int).len() > 0 ==> r == Some(self.list(k as int, s as int)[0]),
    {
        proof {
            assert(self.level_ok(k as int));
            assert(self.linked_at(arena, k as int, s as int));
        }
        self.buckets[k][s].head
    }

    /// Writes the ends of the list of slot `(k, s)`.
    fn set_bucket(&mut self, k: usize, s: usize, b: Bucket)
        requires
            old(self).shaped(),
            Self::valid_slot(k as int, s as int),
        ensures
            final(self).shaped(),
            old(self).same_frame(final(self)),
            final(self).lists == old(self).lists,
            final(self).bucket(k as int, s as int) == b,
            forall|k2: int, s2: int|
                Self::valid_slot(k2, s2) && !(k2 == k && s2 == s) ==> #[trigger] final(self).bucket(
                    k2,
                    s2,
                ) == old(self).bucket(k2, s2),
    {
        proof {
            assert(self.level_ok(k as int));
        }
        self.buckets[k][s] = b;
        proof {
            assert forall|k2: int| 0 <= k2 <= L implies #[trigger] self.level_ok(k2) by {
                assert(old(self).level_ok(k2));
            }
        }
    }

    /// Replaces the ghost sequence of slot `(k, s)`.
    fn set_list(&mut self, Ghost(k): Ghost<int>, Ghost(s): Ghost<int>, Ghost(l): Ghost<Seq<usize>>)
        requires
            old(self).shaped(),
            Self::valid_slot(k, s),
        ensures
            final(self).shaped(),
            old(self).same_frame(final(self)),
            final(self).buckets == old(self).buckets,
            final(self).list(k, s) == l,
            old(self).same_lists_but(final(self), k, s),
    {
        proof {
            assert(self.level_ok(k));
            self.lists = Ghost(self.lists@.update(k, self.lists@[k].update(s, l)));
            assert forall|k2: int| 0 <= k2 <= L implies #[trigger] self.level_ok(k2) by {
                assert(old(self).level_ok(k2));
            }
            assert forall|k2: int, s2: int|
                Self::valid_slot(k2, s2) && !(k2 == k && s2 == s) implies #[trigger] self.list(
                k2,
                s2,
            ) == old(self).list(k2, s2) by {
                assert(old(self).level_ok(k2));
            }
        }
    }

    /// A list whose cells and bucket are untouched stays threaded.
    pub(crate) proof fn lemma_linked_at_frame<T>(
        &self,
        next: &Self,
        before: &Arena<T>,
        after: &Arena<T>,
        k: int,
        s: int,
    )
        requires
            self.linked_at(before, k, s),
            next.list(k, s) == self.list(k, s),
            next.bucket(k, s) == self.bucket(k, s),
            forall|p: int|
                0 <= p < self.list(k, s).len() ==> after.slot(
                    (#[trigger] self.list(k, s)[p]) as int,
                ) == before.slot(self.list(k, s)[p] as int),
        ensures
            next.linked_at(after, k, s),
    {
        let l = self.list(k, s);
        assert forall|p: int| 0 <= p < l.len() implies #[trigger] next.linked_elem(
            after,
            k,
            s,
            p,
        ) by {
            assert(self.linked_elem(before, k, s, p));
            assert(after.slot(l[p] as int) == before.slot(l[p] as int));
        }
    }

    /// Cell `j` after cell `idx` has been hung behind the list `l`.
    pub(crate) open spec fn appended_slot<T>(
        before: &Arena<T>,
        l: Seq<usize>,
        idx: usize,
        location: Location,
        tau: usize,
        j: int,
    ) -> Option<Node<T>> {
        if j == idx {
            Some(
                Node {
                    location,
                    timeout: tau,
                    prev: if l.len() == 0 {
                        None
                    } else {
                        Some(l[l.len() - 1])
                    },
                    next: None,
                    ..before.node(j)
                },
            )
        } else if l.len() > 0 && j == l[l.len() - 1] {
            Some(Node { next: Some(idx), ..before.node(j) })
        } else {
            before.slot(j)
        }
    }

    /// What hanging cell `idx` behind the list `l` does to the arena.
    pub(crate) open spec fn appended<T>(
        before: &Arena<T>,
        after: &Arena<T>,
        l: Seq<usize>,
        idx: usize,
        location: Location,
        tau: usize,
    ) -> bool {
        &&& after.issued == before.issued
        &&& forall|j: int| #[trigger]
            after.slot(j) == Self::appended_slot(before, l, idx, location, tau, j)
    }

    /// The list that was appended to is threaded again.
    proof fn lemma_appended_here<T>(
        &self,
        next: &Self,
        before: &Arena<T>,
        after: &Arena<T>,
        k: int,
        s: int,
        idx: usize,
        tau: usize,
    )
        requires
            self.linked(before),
            Self::valid_slot(k, s),
            before.occupied(idx as int),
            !self.list(k, s).contains(idx),
            Self::appended(
                before,
                after,
                self.list(k, s),
                idx,
                Location::Wheel(k as usize, s as usize),
                tau,
            ),
            next.list(k, s) == self.list(k, s).push(idx),
            next.bucket(k, s) == (Bucket {
                head: if self.list(k, s).len() == 0 {
                    Some(idx)
                } else {
                    self.bucket(k, s).head
                },
                tail: Some(idx),
            }),
        ensures
            next.linked_at(after, k, s),
    {
        let l = self.list(k, s);
        let l2 = next.list(k, s);
        assert(self.linked_at(before, k, s));
        assert forall|p: int| 0 <= p < l2.len() implies #[trigger] next.linked_elem(
            after,
            k,
            s,
            p,
        ) by {
            if p < l.len() {
                assert(self.linked_elem(before, k, s, p));
                assert(l.contains(l[p]));
                assert(after.slot(l[p] as int) == Self::appended_slot(
                    before,
                    l,
                    idx,
                    Location::Wheel(k as usize, s as usize),
                    tau,
                    l[p] as int,
                ));
                if p < l.len() - 1 {
                    assert(l[p] != l[l.len() - 1]);
                }
            } else {
                assert(after.slot(idx as int) == Self::appended_slot(
                    before,
                    l,
                    idx,
                    Location::Wheel(k as usize, s as usize),
                    tau,
                    idx as int,
                ));
            }
        }
        assert(l2.no_duplicates());
    }

    /// Hanging a cell behind a list is a relinking of the arena.
    proof fn lemma_appended_relinked<T>(
        &self,
        before: &Arena<T>,
        after: &Arena<T>,
        k: int,
        s: int,
        idx: usize,
        tau: usize,
    )
        requires
            self.linked(before),
            Self::valid_slot(k, s),
            before.occupied(idx as int),
            Self::appended(
                before,
                after,
                self.list(k, s),
                idx,
                Location::Wheel(k as usize, s as usize),
                tau,
            ),
        ensures
            before.relinked(after, idx as int),
    {
        let l = self.list(k, s);
        assert forall|j: int| #[trigger] before.kept_links(after, idx as int, j) by {
            assert(after.slot(j) == Self::appended_slot(
                before,
                l,
                idx,
                Location::Wheel(k as usize, s as usize),
                tau,
                j,
            ));
            if l.len() > 0 {
                self.lemma_member(before, k, s, l.len() - 1);
            }
        }
    }

    /// Hangs cell `idx`, which is on no list, at the end of the list of slot
    /// `(k, s)`, with fire time `tau`.
    fn link_back<T>(
        &mut self,
        arena: &mut Arena<T>,
        k: usize,
        s: usize,
        idx: usize,
        tau: usize,
    )
        requires
            old(arena).wf(),
            old(self).linked(old(arena)),
            Self::valid_slot(k as int, s as int),
            old(arena).occupied(idx as int),
            old(self).absent(idx),
        ensures
            final(arena).wf(),
            final(self).linked(final(arena)),
            old(self).same_frame(final(self)),
            final(self).list(k as int, s as int) == old(self).list(k as int, s as int).push(idx),
            old(self).same_lists_but(final(self), k as int, s as int),
            old(arena).relinked(final(arena), idx as int),
            final(arena).node(idx as int).location == Location::Wheel(k, s),
            final(arena).node(idx as int).timeout == tau,
    {
        proof {
            assert(self.level_ok(k as int));
            assert(self.linked_at(arena, k as int, s as int));
        }
        let ghost l = self.list(k as int, s as int);
        let b = self.buckets[k][s];
        let head = match b.tail {
            Some(t) => {
                proof {
                    self.lemma_member(arena, k as int, s as int, l.len() - 1);
                    assert(l.contains(t));
                }
                arena.set_next(t, Some(idx));
                b.head
            },
            None => Some(idx),
        };
        let ghost mid = *arena;
        arena.hang(idx, Location::Wheel(k, s), tau, b.tail);
        proof {
            assert forall|j: int| #[trigger]
                arena.slot(j) == Self::appended_slot(
                    old(arena),
                    l,
                    idx,
                    Location::Wheel(k, s),
                    tau,
                    j,
                ) by {
                if j != idx {
                    assert(arena.slot(j) == mid.slot(j));
                    if !(l.len() > 0 && j == l[l.len() - 1]) {
                        assert(mid.slot(j) == old(arena).slot(j));
                    }
                } else {
                    assert(mid.slot(j) == old(arena).slot(j));
                }
            }
        }
        self.set_bucket(k, s, Bucket { head, tail: Some(idx) });
        let ghost w1 = *self;
        self.set_list(Ghost(k as int), Ghost(s as int), Ghost(l.push(idx)));
        proof {
            old(self).lemma_appended_relinked(old(arena), arena, k as int, s as int, idx, tau);
            assert forall|k2: int, s2: int| Self::valid_slot(k2, s2) implies #[trigger] self.linked_at(
                arena,
                k2,
                s2,
            ) by {
                assert(old(self).linked_at(old(arena), k2, s2));
                if k2 == k && s2 == s {
                    old(self).lemma_appended_here(
                        self,
                        old(arena),
                        arena,
                        k as int,
                        s as int,
                        idx,
                        tau,
                    );
                } else {
                    let l3 = old(self).list(k2, s2);
                    assert forall|p: int| 0 <= p < l3.len() implies arena.slot(
                        (#[trigger] l3[p]) as int,
                    ) == old(arena).slot(l3[p] as int) by {
                        old(self).lemma_member(old(arena), k2, s2, p);
                        assert(l3.contains(l3[p]));
                        if l.len() > 0 {
                            old(self).lemma_member(old(arena), k as int, s as int, l.len() - 1);
                        }
                        assert(arena.slot(l3[p] as int) == Self::appended_slot(
                            old(arena),
                            l,
                            idx,
                            Location::Wheel(k, s),
                            tau,
                            l3[p] as int,
                        ));
                    }
                    assert(w1.bucket(k2, s2) == old(self).bucket(k2, s2));
                    assert(self.bucket(k2, s2) == w1.bucket(k2, s2));
                    old(self).lemma_linked_at_frame(self, old(arena), arena, k2, s2);
                }
            }
        }
    }

    /// Cell `j` after the `p`-th cell of the list `l` has been taken off.
    pub(crate) open spec fn spliced_slot<T>(before: &Arena<T>, l: Seq<usize>, p: int, j: int) -> Option<
        Node<T>,
    > {
        if p > 0 && j == l[p - 1] {
            Some(Node { next: before.node(l[p] as int).next, ..before.node(j) })
        } else if p < l.len() - 1 && j == l[p + 1] {
            Some(Node { prev: before.node(l[p] as int).prev, ..before.node(j) })
        } else {
            before.slot(j)
        }
    }

    /// What taking the `p`-th cell off the list `l` does to the arena.
    pub(crate) open spec fn spliced<T>(
        before: &Arena<T>,
        after: &Arena<T>,
        l: Seq<usize>,
        p: int,
    ) -> bool {
        &&& after.issued == before.issued
        &&& forall|j: int| #[trigger] after.slot(j) == Self::spliced_slot(before, l, p, j)
    }

    /// The list that lost its `p`-th cell is threaded again.
    proof fn lemma_spliced_here<T>(
        &self,
        next: &Self,
        before: &Arena<T>,
        after: &Arena<T>,
        k: int,
        s: int,
        p: int,
    )
        requires
            self.linked(before),
            Self::valid_slot(k, s),
            0 <= p < self.list(k, s).len(),
            Self::spliced(before, after, self.list(k, s), p),
            next.list(k, s) == self.list(k, s).remove(p),
            next.bucket(k, s) == (Bucket {
                head: if p == 0 {
                    before.node(self.list(k, s)[p] as int).next
                } else {
                    self.bucket(k, s).head
                },
                tail: if p == self.list(k, s).len() - 1 {
                    before.node(self.list(k, s)[p] as int).prev
                } else {
                    self.bucket(k, s).tail
                },
            }),
        ensures
            next.linked_at(after, k, s),
    {
        let l = self.list(k, s);
        let l2 = next.list(k, s);
        l.remove_ensures(p);
        assert(self.linked_at(before, k, s));
        assert(self.linked_elem(before, k, s, p));
        assert forall|q: int| 0 <= q < l2.len() implies #[trigger] next.linked_elem(
            after,
            k,
            s,
            q,
        ) by {
            let q0 = if q < p {
                q
            } else {
                q + 1
            };
            assert(l2[q] == l[q0]);
            assert(self.linked_elem(before, k, s, q0));
            assert(after.slot(l[q0] as int) == Self::spliced_slot(before, l, p, l[q0] as int));
            if q > 0 {
                assert(l2[q - 1] == l[if q - 1 < p {
                    q - 1
                } else {
                    q
                }]);
            }
            if q < l2.len() - 1 {
                assert(l2[q + 1] == l[if q + 1 < p {
                    q + 1
                } else {
                    q + 2
                }]);
            }
            if p > 0 {
                assert(q0 == p - 1 || l[q0] != l[p - 1]);
            }
            if p < l.len() - 1 {
                assert(q0 == p + 1 || l[q0] != l[p + 1]);
            }
        }
        assert forall|a: int, c: int|
            0 <= a < l2.len() && 0 <= c < l2.len() && a != c implies l2[a] != l2[c] by {
            let a0 = if a < p {
                a
            } else {
                a + 1
            };
            let c0 = if c < p {
                c
            } else {
                c + 1
            };
            assert(l2[a] == l[a0] && l2[c] == l[c0]);
        }
        if l2.len() > 0 {
            assert(l2[0] == l[if p == 0 {
                1int
            } else {
                0int
            }]);
            assert(l2[l2.len() - 1] == l[if p == l.len() - 1 {
                l.len() - 2
            } else {
                l.len() - 1
            }]);
        }
    }

    /// Taking a cell off its list is a relinking of the arena that leaves the
    /// cell itself as it is.
    proof fn lemma_spliced_relinked<T>(
        &self,
        before: &Arena<T>,
        after: &Arena<T>,
        k: int,
        s: int,
        p: int,
    )
        requires
            self.linked(before),
            Self::valid_slot(k, s),
            0 <= p < self.list(k, s).len(),
            Self::spliced(before, after, self.list(k, s), p),
        ensures
            before.relinked(after, self.list(k, s)[p] as int),
            after.slot(self.list(k, s)[p] as int) == before.slot(self.list(k, s)[p] as int),
    {
        let l = self.list(k, s);
        assert(self.linked_at(before, k, s));
        assert forall|j: int| #[trigger] before.kept_links(after, l[p] as int, j) by {
            assert(after.slot(j) == Self::spliced_slot(before, l, p, j));
            if p > 0 {
                self.lemma_member(before, k, s, p - 1);
            }
            if p < l.len() - 1 {
                self.lemma_member(before, k, s, p + 1);
            }
        }
        assert(after.slot(l[p] as int) == Self::spliced_slot(before, l, p, l[p] as int));
    }

    /// What is on a list after one cell has been taken off.
    proof fn lemma_removed_members(l: Seq<usize>, p: int)
        requires
            0 <= p < l.len(),
            l.no_duplicates(),
        ensures
            !l.remove(p).contains(l[p]),
            forall|x: usize| x != l[p] ==> l.remove(p).contains(x) == l.contains(x),
            l.remove(p).len() + 1 == l.len(),
    {
        let l2 = l.remove(p);
        l.remove_ensures(p);
        assert forall|q: int| 0 <= q < l2.len() implies #[trigger] l2[q] != l[p] && l.contains(
            l2[q],
        ) by {
            if q < p {
                assert(l2[q] == l[q]);
            } else {
                assert(l2[q] == l[q + 1]);
            }
        }
        assert forall|x: usize| x != l[p] implies l2.contains(x) == l.contains(x) by {
            if l.contains(x) {
                let q = l.index_of(x);
                if q < p {
                    assert(l2[q] == x);
                } else {
                    assert(l2[q - 1] == x);
                }
            }
            if l2.contains(x) {
                let q = l2.index_of(x);
                assert(l.contains(l2[q]));
            }
        }
    }

    /// Takes cell `idx` off the list of slot `(k, s)`, on which it is. The
    /// cell itself is left as it is.
    fn unlink<T>(&mut self, arena: &mut Arena<T>, k: usize, s: usize, idx: usize)
        requires
            old(arena).wf(),
            old(self).linked(old(arena)),
            Self::valid_slot(k as int, s as int),
            old(self).list(k as int, s as int).contains(idx),
        ensures
            final(arena).wf(),
            final(self).linked(final(arena)),
            old(self).same_frame(final(self)),
            final(self).list(k as int, s as int) == old(self).list(k as int, s as int).remove(
                old(self).list(k as int, s as int).index_of(idx),
            ),
            !final(self).list(k as int, s as int).contains(idx),
            forall|x: usize|
                x != idx ==> final(self).list(k as int, s as int).contains(x) == old(self).list(
                    k as int,
                    s as int,
                ).contains(x),
            final(self).list(k as int, s as int).len() + 1 == old(self).list(
                k as int,
                s as int,
            ).len(),
            old(self).same_lists_but(final(self), k as int, s as int),
            old(arena).relinked(final(arena), idx as int),
            final(arena).slot(idx as int) == old(arena).slot(idx as int),
            final(self).absent(idx),
    {
        let ghost l = self.list(k as int, s as int);
        let ghost p = l.index_of(idx);
        proof {
            assert(self.level_ok(k as int));
            assert(self.linked_at(arena, k as int, s as int));
            assert(self.linked_elem(arena, k as int, s as int, p));
            if p > 0 {
                self.lemma_member(arena, k as int, s as int, p - 1);
            }
            if p < l.len() - 1 {
                self.lemma_member(arena, k as int, s as int, p + 1);
            }
        }
        let b = self.buckets[k][s];
        let prev = arena.prev(idx);
        let next = arena.next(idx);
        let head = match prev {
            Some(a) => {
                arena.set_next(a, next);
                b.head
            },
            None => next,
        };
        let ghost mid = *arena;
        let tail = match next {
            Some(c) => {
                arena.set_prev(c, prev);
                b.tail
            },
            None => prev,
        };
        proof {
            assert forall|j: int| #[trigger]
                arena.slot(j) == Self::spliced_slot(old(arena), l, p, j) by {
                if p > 0 && p < l.len() - 1 {
                    assert(l[p - 1] != l[p + 1]);
                }
                if !(p < l.len() - 1 && j == l[p + 1]) {
                    assert(arena.slot(j) == mid.slot(j));
                }
                if !(p > 0 && j == l[p - 1]) {
                    assert(mid.slot(j) == old(arena).slot(j));
                }
            }
        }
        self.set_bucket(k, s, Bucket { head, tail });
        let ghost w1 = *self;
        self.set_list(Ghost(k as int), Ghost(s as int), Ghost(l.remove(p)));
        proof {
            Self::lemma_removed_members(l, p);
            old(self).lemma_spliced_relinked(old(arena), arena, k as int, s as int, p);
            assert forall|k2: int, s2: int| Self::valid_slot(k2, s2) implies #[trigger] self.linked_at(
                arena,
                k2,
                s2,
            ) by {
                assert(old(self).linked_at(old(arena), k2, s2));
                if k2 == k && s2 == s {
                    old(self).lemma_spliced_here(self, old(arena), arena, k as int, s as int, p);
                } else {
                    let l3 = old(self).list(k2, s2);
                    assert forall|q: int| 0 <= q < l3.len() implies arena.slot(
                        (#[trigger] l3[q]) as int,
                    ) == old(arena).slot(l3[q] as int) by {
                        old(self).lemma_member(old(arena), k2, s2, q);
                        assert(arena.slot(l3[q] as int) == Self::spliced_slot(
                            old(arena),
                            l,
                            p,
                            l3[q] as int,
                        ));
                    }
                    assert(w1.bucket(k2, s2) == old(self).bucket(k2, s2));
                    assert(self.bucket(k2, s2) == w1.bucket(k2, s2));
                    old(self).lemma_linked_at_frame(self, old(arena), arena, k2, s2);
                }
            }
            assert forall|k2: int, s2: int| Self::valid_slot(k2, s2) implies !(#[trigger] self.list(
                k2,
                s2,
            )).contains(idx) by {
                if !(k2 == k && s2 == s) {
                    old(self).lemma_not_member(old(arena), k2, s2, idx);
                }
            }
        }
    }

    /// Cell `j` is on the list of the slot that its place tag names.
    pub(crate) open spec fn on<T>(&self, arena: &Arena<T>, j: int) -> bool {
        &&& arena.occupied(j)
        &&& 0 <= j <= usize::MAX
        &&& match arena.node(j).location {
            Location::Wheel(k, s) => Self::valid_slot(k as int, s as int) && self.list(
                k as int,
                s as int,
            ).contains(j as usize),
            Location::Heap(_) => false,
        }
    }

    /// The wheel holds exactly the cells in `members`, each on the list of
    /// the slot that its place tag names.
    pub(crate) open spec fn tracks<T>(&self, arena: &Arena<T>, members: Set<int>) -> bool {
        &&& self.linked(arena)
        &&& forall|k: int, s: int, p: int|
            Self::valid_slot(k, s) && 0 <= p < self.list(k, s).len() ==> members.contains(
                (#[trigger] self.list(k, s)[p]) as int,
            )
        &&& forall|j: int| #[trigger] members.contains(j) ==> self.on(arena, j)
    }

    /// A wheel whose cells are untouched keeps track of them.
    pub(crate) proof fn lemma_tracks_frame<T>(
        &self,
        before: &Arena<T>,
        after: &Arena<T>,
        members: Set<int>,
    )
        requires
            self.tracks(before, members),
            forall|j: int| members.contains(j) ==> #[trigger] after.slot(j) == before.slot(j),
        ensures
            self.tracks(after, members),
    {
        assert forall|k: int, s: int| Self::valid_slot(k, s) implies #[trigger] self.linked_at(
            after,
            k,
            s,
        ) by {
            assert(self.linked_at(before, k, s));
            assert forall|p: int| 0 <= p < self.list(k, s).len() implies after.slot(
                (#[trigger] self.list(k, s)[p]) as int,
            ) == before.slot(self.list(k, s)[p] as int) by {
                assert(members.contains(self.list(k, s)[p] as int));
            }
            self.lemma_linked_at_frame(self, before, after, k, s);
        }
        assert forall|j: int| #[trigger] members.contains(j) implies self.on(after, j) by {
            assert(self.on(before, j));
            assert(after.slot(j) == before.slot(j));
        }
    }

    /// Hangs cell `idx`, which is in no container, at the end of the list of
    /// slot `(k, s)`, with fire time `tau`.
    pub(crate) fn attach<T>(
        &mut self,
        arena: &mut Arena<T>,
        k: usize,
        s: usize,
        idx: usize,
        tau: usize,
        Ghost(members): Ghost<Set<int>>,
    )
        requires
            old(arena).wf(),
            old(self).tracks(old(arena), members),
            Self::valid_slot(k as int, s as int),
            old(arena).occupied(idx as int),
            !members.contains(idx as int),
        ensures
            final(arena).wf(),
            final(self).tracks(final(arena), members.insert(idx as int)),
            old(self).same_frame(final(self)),
            final(self).list(k as int, s as int) == old(self).list(k as int, s as int).push(idx),
            old(self).same_lists_but(final(self), k as int, s as int),
            old(arena).relinked(final(arena), idx as int),
            final(arena).node(idx as int).location == Location::Wheel(k, s),
            final(arena).node(idx as int).timeout == tau,
    {
        proof {
            assert forall|k2: int, s2: int| Self::valid_slot(k2, s2) implies !(#[trigger] self.list(
                k2,
                s2,
            )).contains(idx) by {
                if self.list(k2, s2).contains(idx) {
                    let p = self.list(k2, s2).index_of(idx);
                    assert(members.contains(self.list(k2, s2)[p] as int));
                }
            }
        }
        self.link_back(arena, k, s, idx, tau);
        proof {
            let m2 = members.insert(idx as int);
            let l = old(self).list(k as int, s as int);
            assert forall|k2: int, s2: int, p: int|
                Self::valid_slot(k2, s2) && 0 <= p < self.list(k2, s2).len() implies m2.contains(
                (#[trigger] self.list(k2, s2)[p]) as int,
            ) by {
                if k2 == k && s2 == s {
                    if p < l.len() {
                        assert(members.contains(l[p] as int));
                    }
                } else {
                    assert(self.list(k2, s2) == old(self).list(k2, s2));
                    assert(members.contains(old(self).list(k2, s2)[p] as int));
                }
            }
            assert forall|j: int| #[trigger] m2.contains(j) implies self.on(arena, j) by {
                assert(old(arena).kept_links(arena, idx as int, j));
                if j == idx {
                    assert(self.list(k as int, s as int)[l.len() as int] == idx);
                } else {
                    assert(old(self).on(old(arena), j));
                    match old(arena).node(j).location {
                        Location::Wheel(k2, s2) => {
                            let l3 = old(self).list(k2 as int, s2 as int);
                            let p = l3.index_of(j as usize);
                            if k2 == k && s2 == s {
                                assert(self.list(k as int, s as int)[p] == j);
                            } else {
                                assert(self.list(k2 as int, s2 as int) == l3);
                            }
                        },
                        Location::Heap(_) => {},
                    }
                }
            }
        }
    }

    /// Takes the member `idx` off the list of slot `(k, s)`, which its place
    /// tag names. The cell itself is left as it is.
    pub(crate) fn detach<T>(
        &mut self,
        arena: &mut Arena<T>,
        k: usize,
        s: usize,
        idx: usize,
        Ghost(members): Ghost<Set<int>>,
    )
        requires
            old(arena).wf(),
            old(self).tracks(old(arena), members),
            members.contains(idx as int),
            old(arena).node(idx as int).location == Location::Wheel(k, s),
        ensures
            final(arena).wf(),
            final(self).tracks(final(arena), members.remove(idx as int)),
            old(self).same_frame(final(self)),
            Self::valid_slot(k as int, s as int),
            final(self).list(k as int, s as int).len() + 1 == old(self).list(
                k as int,
                s as int,
            ).len(),
            old(self).same_lists_but(final(self), k as int, s as int),
            old(arena).relinked(final(arena), idx as int),
            final(arena).slot(idx as int) == old(arena).slot(idx as int),
    {
        proof {
            assert(self.on(arena, idx as int));
        }
        self.unlink(arena, k, s, idx);
        proof {
            let m2 = members.remove(idx as int);
            assert forall|k2: int, s2: int, p: int|
                Self::valid_slot(k2, s2) && 0 <= p < self.list(k2, s2).len() implies m2.contains(
                (#[trigger] self.list(k2, s2)[p]) as int,
            ) by {
                let x = self.list(k2, s2)[p];
                assert(self.list(k2, s2).contains(x));
                if k2 == k && s2 == s {
                    assert(x != idx);
                    assert(old(self).list(k2, s2).contains(x));
                    let q = old(self).list(k2, s2).index_of(x);
                    assert(members.contains(old(self).list(k2, s2)[q] as int));
                } else {
                    assert(self.list(k2, s2) == old(self).list(k2, s2));
                    assert(members.contains(old(self).list(k2, s2)[p] as int));
                    assert(x != idx);
                }
            }
            assert forall|j: int| #[trigger] m2.contains(j) implies self.on(arena, j) by {
                assert(old(arena).kept_links(arena, idx as int, j));
                assert(old(self).on(old(arena), j));
                match old(arena).node(j).location {
                    Location::Wheel(k2, s2) => {
                        if !(k2 == k && s2 == s) {
                            assert(self.list(k2 as int, s2 as int) == old(self).list(
                                k2 as int,
                                s2 as int,
                            ));
                        }
                    },
                    Location::Heap(_) => {},
                }
            }
        }
    }

    /// Takes the first cell off the list of slot `(k, s)`, if there is one.
    pub(crate) fn take_front<T>(
        &mut self,
        arena: &mut Arena<T>,
        k: usize,
        s: usize,
        Ghost(members): Ghost<Set<int>>,
    ) -> (r: Option<usize>)
        requires
            old(arena).wf(),
            old(self).tracks(old(arena), members),
            Self::valid_slot(k as int, s as int),
        ensures
            final(arena).wf(),
            old(self).same_frame(final(self)),
            match r {
                Some(idx) => {
                    &&& members.contains(idx as int)
                    &&& old(arena).node(idx as int).location == Location::Wheel(k, s)
                    &&& final(self).tracks(final(arena), members.remove(idx as int))
                    &&& final(self).list(k as int, s as int).len() + 1 == old(self).list(
                        k as int,
                        s as int,
                    ).len()
                    &&& old(self).same_lists_but(final(self), k as int, s as int)
                    &&& old(arena).relinked(final(arena), idx as int)
                    &&& final(arena).slot(idx as int) == old(arena).slot(idx as int)
                },
                None => {
                    &&& old(self).list(k as int, s as int).len() == 0
                    &&& *final(self) == *old(self)
                    &&& *final(arena) == *old(arena)
                },
            },
    {
        proof {
            assert(self.level_ok(k as int));
            assert(self.linked_at(arena, k as int, s as int));
        }
        match self.buckets[k][s].head {
            Some(idx) => {
                proof {
                    assert(members.contains(self.list(k as int, s as int)[0] as int));
                    self.lemma_member(arena, k as int, s as int, 0);
                }
                self.detach(arena, k, s, idx, Ghost(members));
                Some(idx)
            },
            None => None,
        }
    }

    /// A wheel without entries is threaded through any arena.
    pub(crate) proof fn lemma_vacant_tracks<T>(&self, arena: &Arena<T>)
        requires
            self.shaped(),
            self.vacant(),
            forall|k: int, s: int|
                Self::valid_slot(k, s) ==> (#[trigger] self.bucket(k, s)).head is None
                    && self.bucket(k, s).tail is None,
        ensures
            self.tracks(arena, Set::empty()),
    {
        assert forall|k: int, s: int| Self::valid_slot(k, s) implies #[trigger] self.linked_at(
            arena,
            k,
            s,
        ) by {
            assert(self.list(k, s).len() == 0);
            assert(self.bucket(k, s).head is None);
        }
    }

    /// A wheel keeps track of its cells wherever its position is.
    pub(crate) proof fn lemma_tracks_moved<T>(&self, next: &Self, arena: &Arena<T>, members: Set<int>)
        requires
            self.tracks(arena, members),
            next.unit@ == self.unit@,
            next.buckets@ == self.buckets@,
            next.lists@ == self.lists@,
            next.pos < self.epoch(),
        ensures
            next.tracks(arena, members),
    {
        assert forall|k: int| 0 <= k <= L implies #[trigger] next.level_ok(k) by {
            assert(self.level_ok(k));
        }
        assert forall|k: int, s: int| Self::valid_slot(k, s) implies #[trigger] next.linked_at(
            arena,
            k,
            s,
        ) by {
            assert(self.linked_at(arena, k, s));
            assert(next.list(k, s) == self.list(k, s));
            assert(next.bucket(k, s) == self.bucket(k, s));
            assert forall|p: int| 0 <= p < next.list(k, s).len() implies #[trigger] next.linked_elem(
                arena,
                k,
                s,
                p,
            ) by {
                assert(self.linked_elem(arena, k, s, p));
            }
        }
        assert forall|k: int, s: int, p: int|
            Self::valid_slot(k, s) && 0 <= p < next.list(k, s).len() implies members.contains(
            (#[trigger] next.list(k, s)[p]) as int,
        ) by {
            assert(members.contains(self.list(k, s)[p] as int));
        }
        assert forall|j: int| #[trigger] members.contains(j) implies next.on(arena, j) by {
            assert(self.on(arena, j));
        }
    }
}

} // verus!
