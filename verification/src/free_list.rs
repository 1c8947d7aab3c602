//! The free list of one chunk class: the chunks of that class that are
//! currently available for allocation.
//!
//! A chunk is named by its index within the class, so the list is a structure
//! over a fixed index range `0..capacity`. Besides constant-time push and
//! pop it must support constant-time removal of an arbitrary known member —
//! coalescing removes the buddy of the chunk being freed, wherever that buddy
//! sits in the list. Instead of chaining raw pointers through the managed
//! memory itself, the list keeps the members in a dense array and, for each
//! chunk index, its position in that array; both directions are updated on
//! every operation, which makes push, pop, membership test and arbitrary
//! removal all O(1).

use vstd::prelude::*;

verus! {

/// The free chunks of one chunk class, ordered from least to most recently
/// freed. Viewed as the `Seq<usize>` of member chunk indices.
pub struct FreeList {
    /// The member chunk indices, in insertion order.
    items: Vec<usize>,
    /// For each chunk index of the class, its position in `items`
    /// (meaningful only while the chunk is a member).
    slot: Vec<usize>,
    /// For each chunk index of the class, whether it is a member.
    member: Vec<bool>,
}

impl FreeList {
    pub closed spec fn view(&self) -> Seq<usize> {
        self.items@
    }

    /// Number of chunk indices the class has room for (fixed at creation).
    pub closed spec fn capacity(&self) -> nat {
        self.member@.len()
    }

    /// Internal consistency: the dense member array and the per-chunk
    /// position/membership arrays describe each other exactly.
    pub closed spec fn wf(&self) -> bool {
        &&& self.slot@.len() == self.member@.len()
        &&& forall|j: int|
            0 <= j < self.items@.len() ==> {
                &&& (#[trigger] self.items@[j]) < self.member@.len()
                &&& self.member@[self.items@[j] as int]
                &&& self.slot@[self.items@[j] as int] == j
            }
        &&& forall|c: int|
            0 <= c < self.member@.len() && #[trigger] self.member@[c] ==> {
                &&& self.slot@[c] < self.items@.len()
                &&& self.items@[self.slot@[c] as int] == c
            }
    }

    /// A well-formed list never holds a chunk index twice, and every member
    /// is a chunk index of the class.
    pub proof fn lemma_wf_facts(&self)
        requires
            self.wf(),
        ensures
            self.view().no_duplicates(),
            forall|j: int|
                0 <= j < self.view().len() ==> (#[trigger] self.view()[j]) < self.capacity(),
    {
        assert forall|i: int, j: int|
            0 <= i < self.view().len() && 0 <= j < self.view().len() && i != j implies self.view()[i]
            != self.view()[j] by {
            if self.view()[i] == self.view()[j] {
                assert(self.slot@[self.view()[i] as int] == i);
            }
        }
    }

    /// A fresh, empty free list for a class of `capacity` chunks.
    pub fn new(capacity: usize) -> (r: FreeList)
        ensures
            r.wf(),
            r.view() == Seq::<usize>::empty(),
            r.capacity() == capacity,
    {
        let mut slot: Vec<usize> = Vec::new();
        let mut member: Vec<bool> = Vec::new();
        let mut i: usize = 0;
        while i < capacity
            invariant
                0 <= i <= capacity,
                slot@.len() == i,
                member@ == Seq::new(i as nat, |j: int| false),
            decreases capacity - i,
        {
            slot.push(0);
            member.push(false);
            proof {
                assert(member@ =~= Seq::new((i + 1) as nat, |j: int| false));
            }
            i = i + 1;
        }
        let r = FreeList { items: Vec::new(), slot, member };
        proof {
            assert(r.view() =~= Seq::<usize>::empty());
        }
        r
    }

    /// How many chunks are currently free in this class.
    pub fn len(&self) -> (n: usize)
        ensures
            n == self.view().len(),
    {
        self.items.len()
    }

    /// Whether chunk `c` is currently a member.
    pub fn contains(&self, c: usize) -> (b: bool)
        requires
            self.wf(),
            c < self.capacity(),
        ensures
            b == self.view().contains(c),
    {
        let b = self.member[c];
        proof {
            if b {
                assert(self.view()[self.slot@[c as int] as int] == c);
            }
            if self.view().contains(c) {
                let j = choose|j: int| 0 <= j < self.view().len() && self.view()[j] == c;
                assert(self.member@[self.view()[j] as int]);
            }
        }
        b
    }

    /// Adds chunk `c`, which must not already be a member, as the most
    /// recently freed chunk.
    pub fn push(&mut self, c: usize)
        requires
            old(self).wf(),
            c < old(self).capacity(),
            !old(self).view().contains(c),
        ensures
            final(self).wf(),
            final(self).capacity() == old(self).capacity(),
            final(self).view() == old(self).view().push(c),
    {
        proof {
            if self.member@[c as int] {
                assert(self.view()[self.slot@[c as int] as int] == c);
                assert(self.view().contains(c));
            }
        }
        let pos = self.items.len();
        self.items.push(c);
        self.slot[c] = pos;
        self.member[c] = true;
    }

    /// Removes and returns the most recently freed chunk.
    pub fn pop(&mut self) -> (c: usize)
        requires
            old(self).wf(),
            old(self).view().len() > 0,
        ensures
            final(self).wf(),
            final(self).capacity() == old(self).capacity(),
            c == old(self).view().last(),
            final(self).view() == old(self).view().drop_last(),
            !final(self).view().contains(c),
    {
        proof {
            self.lemma_wf_facts();
        }
        let c = self.items[self.items.len() - 1];
        self.items.pop();
        self.member[c] = false;
        proof {
            assert forall|j: int| 0 <= j < self.items@.len() implies {
                &&& (#[trigger] self.items@[j]) < self.member@.len()
                &&& self.member@[self.items@[j] as int]
                &&& self.slot@[self.items@[j] as int] == j
            } by {
                assert(old(self).view()[j] == self.items@[j]);
                assert(old(self).view()[old(self).view().len() - 1] == c);
            }
            if self.view().contains(c) {
                let j = choose|j: int| 0 <= j < self.items@.len() && self.items@[j] == c;
                assert(old(self).view()[j] == c);
                assert(old(self).slot@[c as int] == j);
                assert(old(self).slot@[c as int] == old(self).view().len() - 1);
            }
        }
        c
    }

    /// Removes chunk `c`, wherever it sits in the list, by moving the most
    /// recently freed chunk into its place.
    pub fn remove(&mut self, c: usize)
        requires
            old(self).wf(),
            old(self).view().contains(c),
        ensures
            final(self).wf(),
            final(self).capacity() == old(self).capacity(),
            final(self).view() == old(self).view().update(
                old(self).view().index_of(c),
                old(self).view().last(),
            ).drop_last(),
            !final(self).view().contains(c),
    {
        proof {
            self.lemma_wf_facts();
            let j0 = choose|j: int| 0 <= j < self.view().len() && self.view()[j] == c;
            assert(self.member@[self.view()[j0] as int]);
            assert(self.slot@[c as int] == j0);
        }
        let j = self.slot[c];
        let last_pos = self.items.len() - 1;
        let last_val = self.items[last_pos];
        self.items[j] = last_val;
        self.slot[last_val] = j;
        self.items.pop();
        self.member[c] = false;
        proof {
            let old_view = old(self).view();
            let ghost_j = old(self).slot@[c as int] as int;
            // `index_of` picks the unique position of `c`.
            assert(old_view[old_view.index_of(c)] == c) by {
                assert(old_view.contains(c));
            }
            assert(old_view.index_of(c) == ghost_j) by {
                if old_view.index_of(c) != ghost_j {
                    assert(old(self).slot@[old_view[old_view.index_of(c)] as int]
                        == old_view.index_of(c));
                }
            }
            assert(self.view() =~= old_view.update(ghost_j, old_view.last()).drop_last());
            // Well-formedness of the result.
            assert forall|t: int| 0 <= t < self.items@.len() implies {
                &&& (#[trigger] self.items@[t]) < self.member@.len()
                &&& self.member@[self.items@[t] as int]
                &&& self.slot@[self.items@[t] as int] == t
            } by {
                if t == ghost_j {
                    assert(self.items@[t] == old_view.last());
                    assert(old_view[old_view.len() - 1] == old_view.last());
                    if old_view.last() == c {
                        assert(old(self).slot@[c as int] == old_view.len() - 1);
                    }
                } else {
                    assert(self.items@[t] == old_view[t]);
                    if self.items@[t] == c {
                        assert(old(self).slot@[c as int] == t);
                    }
                    if self.items@[t] == old_view.last() {
                        assert(old(self).slot@[old_view[t] as int] == t);
                        assert(old(self).slot@[old_view[old_view.len() - 1] as int]
                            == old_view.len() - 1);
                    }
                }
            }
            assert forall|d: int|
                0 <= d < self.member@.len() && #[trigger] self.member@[d] implies {
                &&& self.slot@[d] < self.items@.len()
                &&& self.items@[self.slot@[d] as int] == d
            } by {
                assert(old(self).member@[d]);
                let sd = old(self).slot@[d];
                assert(old_view[sd as int] == d);
                if d == old_view.last() as int {
                    if sd == old_view.len() - 1 {
                        assert(self.slot@[d] == ghost_j);
                    }
                } else {
                    assert(sd != old_view.len() - 1 || old_view[old_view.len() - 1] == d);
                }
            }
            if self.view().contains(c) {
                let t = choose|t: int| 0 <= t < self.items@.len() && self.items@[t] == c;
                if t == ghost_j {
                    assert(old_view.last() == c);
                    assert(old(self).slot@[c as int] == old_view.len() - 1);
                } else {
                    assert(old_view[t] == c);
                    assert(old(self).slot@[c as int] == t);
                }
            }
        }
    }
}

} // verus!
