//! The slot arena: the one place that knows where every entry lives.
//!
//! Entries are stored in numbered cells. Each cell holds the payload, the
//! serial number under which the entry was scheduled, the place where the
//! entry currently is (a wheel bucket or a heap position) and the links of
//! the intrusive list that the entry is threaded on. Cells are reused; serial
//! numbers are not.

use vstd::prelude::*;
use crate::key::TimerKey;

verus! {

/// Where an entry currently is.
#[derive(Clone, Copy, Debug, PartialEq, Eq, Structural)]
pub(crate) enum Location {
    /// In the wheel, on the list of the given slot of the given level
    /// (level 0 is the base level).
    Wheel(usize, usize),
    /// In the overflow heap, at the given array position.
    Heap(usize),
}

/// One stored entry.
pub(crate) struct Node<T> {
    /// The payload.
    pub(crate) el: T,
    /// The serial number of the key that names this entry.
    pub(crate) serial: usize,
    /// While in the wheel: the fire time within the cycle of the level.
    pub(crate) timeout: usize,
    /// The container and position that hold the entry.
    pub(crate) location: Location,
    /// The cell before this one on its bucket list.
    pub(crate) prev: Option<usize>,
    /// The cell after this one on its bucket list.
    pub(crate) next: Option<usize>,
}

/// The arena itself.
pub(crate) struct Arena<T> {
    /// The cells; `None` marks a vacant one.
    pub(crate) nodes: Vec<Option<Node<T>>>,
    /// The vacant cells, each listed once.
    pub(crate) free: Vec<usize>,
    /// How many serial numbers have been handed out.
    pub(crate) issued: usize,
}

impl<T> Arena<T> {
    /// The content of cell `i`; cells beyond the end count as vacant.
    pub(crate) open spec fn slot(&self, i: int) -> Option<Node<T>> {
        if 0 <= i < self.nodes@.len() {
            self.nodes@[i]
        } else {
            None
        }
    }

    /// Cell `i` holds an entry.
    pub(crate) open spec fn occupied(&self, i: int) -> bool {
        self.slot(i) is Some
    }

    /// The entry in cell `i`.
    pub(crate) open spec fn node(&self, i: int) -> Node<T> {
        self.slot(i).unwrap()
    }

    /// The key that names the entry in cell `i`.
    pub(crate) open spec fn key_at(&self, i: int) -> TimerKey {
        TimerKey { index: i as usize, serial: self.node(i).serial }
    }

    /// `key` names a stored entry.
    pub(crate) open spec fn holds(&self, key: TimerKey) -> bool {
        self.occupied(key.index as int) && self.node(key.index as int).serial == key.serial
    }

    /// The free list names vacant cells only, each once, and every stored
    /// serial number has been issued.
    pub(crate) open spec fn wf(&self) -> bool {
        &&& forall|a: int|
            0 <= a < self.free@.len() ==> 0 <= #[trigger] self.free@[a] < self.nodes@.len()
                && self.nodes@[self.free@[a] as int] is None
        &&& forall|a: int, b: int|
            0 <= a < b < self.free@.len() ==> #[trigger] self.free@[a] != #[trigger] self.free@[b]
        &&& forall|i: int| #[trigger] self.occupied(i) ==> self.node(i).serial < self.issued
    }

    /// `next` differs from `self` in cell `i` at most.
    pub(crate) open spec fn same_but(&self, next: &Self, i: int) -> bool {
        forall|j: int| j != i ==> #[trigger] next.slot(j) == self.slot(j)
    }

    /// The number of an occupied cell fits the machine word.
    pub(crate) proof fn lemma_index_fits(&self, j: int)
        requires
            self.occupied(j),
        ensures
            0 <= j < usize::MAX,
            self.key_at(j).index == j,
    {
        assert(self.nodes.len() == self.nodes@.len());
    }

    /// An arena without entries.
    pub(crate) fn new() -> (a: Self)
        ensures
            a.wf(),
            a.issued == 0,
            forall|i: int| !a.occupied(i),
    {
        Arena { nodes: Vec::new(), free: Vec::new(), issued: 0 }
    }

    /// Stores a new entry, unlinked, and returns its cell. The entry gets the
    /// next serial number.
    pub(crate) fn insert(&mut self, el: T, timeout: usize, location: Location) -> (i: usize)
        requires
            old(self).wf(),
            old(self).issued < usize::MAX,
        ensures
            final(self).wf(),
            final(self).issued == old(self).issued + 1,
            !old(self).occupied(i as int),
            final(self).slot(i as int) == Some(
                Node { el, serial: old(self).issued, timeout, location, prev: None, next: None },
            ),
            old(self).same_but(final(self), i as int),
    {
        let node = Node { el, serial: self.issued, timeout, location, prev: None, next: None };
        self.issued = self.issued + 1;
        match self.free.pop() {
            Some(i) => {
                self.nodes[i] = Some(node);
                assert forall|a: int| 0 <= a < self.free@.len() implies 0 <= #[trigger] self.free@[a]
                    < self.nodes@.len() && self.nodes@[self.free@[a] as int] is None by {
                    assert(self.free@[a] == old(self).free@[a]);
                    assert(old(self).free@[old(self).free@.len() - 1] == i);
                }
                assert forall|j: int| #[trigger] self.occupied(j) implies self.node(j).serial
                    < self.issued by {
                    if j != i {
                        assert(old(self).occupied(j));
                    }
                }
                i
            },
            None => {
                self.nodes.push(Some(node));
                assert forall|j: int| #[trigger] self.occupied(j) implies self.node(j).serial
                    < self.issued by {
                    if j != self.nodes@.len() - 1 {
                        assert(old(self).occupied(j));
                    }
                }
                self.nodes.len() - 1
            },
        }
    }

    /// Takes the entry out of cell `i` and leaves the cell vacant.
    pub(crate) fn remove(&mut self, i: usize) -> (node: Node<T>)
        requires
            old(self).wf(),
            old(self).occupied(i as int),
        ensures
            final(self).wf(),
            final(self).issued == old(self).issued,
            node == old(self).node(i as int),
            !final(self).occupied(i as int),
            old(self).same_but(final(self), i as int),
    {
        let taken = self.nodes[i].take();
        self.free.push(i);
        assert forall|j: int| #[trigger] self.occupied(j) implies self.node(j).serial
            < self.issued by {
            assert(old(self).occupied(j));
        }
        taken.unwrap()
    }

    /// Tells whether `key` names a stored entry.
    pub(crate) fn contains(&self, key: TimerKey) -> (b: bool)
        ensures
            b == self.holds(key),
    {
        if key.index < self.nodes.len() {
            match &self.nodes[key.index] {
                Some(n) => n.serial == key.serial,
                None => false,
            }
        } else {
            false
        }
    }

    /// The serial number of the entry in cell `i`.
    pub(crate) fn serial(&self, i: usize) -> (s: usize)
        requires
            self.occupied(i as int),
        ensures
            s == self.node(i as int).serial,
    {
        self.nodes[i].as_ref().unwrap().serial
    }

    /// The place of the entry in cell `i`.
    pub(crate) fn location(&self, i: usize) -> (l: Location)
        requires
            self.occupied(i as int),
        ensures
            l == self.node(i as int).location,
    {
        self.nodes[i].as_ref().unwrap().location
    }

    /// The stored fire time of the entry in cell `i`.
    pub(crate) fn timeout(&self, i: usize) -> (t: usize)
        requires
            self.occupied(i as int),
        ensures
            t == self.node(i as int).timeout,
    {
        self.nodes[i].as_ref().unwrap().timeout
    }

    /// The cell before cell `i` on its list.
    pub(crate) fn prev(&self, i: usize) -> (p: Option<usize>)
        requires
            self.occupied(i as int),
        ensures
            p == self.node(i as int).prev,
    {
        self.nodes[i].as_ref().unwrap().prev
    }

    /// The cell after cell `i` on its list.
    pub(crate) fn next(&self, i: usize) -> (n: Option<usize>)
        requires
            self.occupied(i as int),
        ensures
            n == self.node(i as int).next,
    {
        self.nodes[i].as_ref().unwrap().next
    }

    /// Records a new place for the entry in cell `i`.
    pub(crate) fn set_location(&mut self, i: usize, location: Location)
        requires
            old(self).wf(),
            old(self).occupied(i as int),
        ensures
            final(self).wf(),
            final(self).issued == old(self).issued,
            final(self).slot(i as int) == Some(Node { location, ..old(self).node(i as int) }),
            old(self).same_but(final(self), i as int),
    {
        match &mut self.nodes[i] {
            Some(n) => {
                n.location = location;
            },
            None => {},
        }
        assert forall|j: int| #[trigger] self.occupied(j) implies self.node(j).serial
            < self.issued by {
            assert(old(self).occupied(j));
        }
    }

    /// Hangs the entry in cell `i` at the end of a list: records its place,
    /// its fire time and its predecessor, and clears its successor.
    pub(crate) fn hang(&mut self, i: usize, location: Location, timeout: usize, prev: Option<usize>)
        requires
            old(self).wf(),
            old(self).occupied(i as int),
        ensures
            final(self).wf(),
            final(self).issued == old(self).issued,
            final(self).slot(i as int) == Some(
                Node { location, timeout, prev, next: None, ..old(self).node(i as int) },
            ),
            old(self).same_but(final(self), i as int),
    {
        match &mut self.nodes[i] {
            Some(n) => {
                n.location = location;
                n.timeout = timeout;
                n.prev = prev;
                n.next = None;
            },
            None => {},
        }
        assert forall|j: int| #[trigger] self.occupied(j) implies self.node(j).serial
            < self.issued by {
            assert(old(self).occupied(j));
        }
    }

    /// Records a new predecessor for the entry in cell `i`.
    pub(crate) fn set_prev(&mut self, i: usize, prev: Option<usize>)
        requires
            old(self).wf(),
            old(self).occupied(i as int),
        ensures
            final(self).wf(),
            final(self).issued == old(self).issued,
            final(self).slot(i as int) == Some(Node { prev, ..old(self).node(i as int) }),
            old(self).same_but(final(self), i as int),
    {
        match &mut self.nodes[i] {
            Some(n) => {
                n.prev = prev;
            },
            None => {},
        }
        assert forall|j: int| #[trigger] self.occupied(j) implies self.node(j).serial
            < self.issued by {
            assert(old(self).occupied(j));
        }
    }

    /// Records a new successor for the entry in cell `i`.
    pub(crate) fn set_next(&mut self, i: usize, next: Option<usize>)
        requires
            old(self).wf(),
            old(self).occupied(i as int),
        ensures
            final(self).wf(),
            final(self).issued == old(self).issued,
            final(self).slot(i as int) == Some(Node { next, ..old(self).node(i as int) }),
            old(self).same_but(final(self), i as int),
    {
        match &mut self.nodes[i] {
            Some(n) => {
                n.next = next;
            },
            None => {},
        }
        assert forall|j: int| #[trigger] self.occupied(j) implies self.node(j).serial
            < self.issued by {
            assert(old(self).occupied(j));
        }
    }
}

} // verus!
