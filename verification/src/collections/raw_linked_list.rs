//! A doubly linked list whose nodes live in slots of a storage and are
//! named by handles that stay valid until the node itself is freed.

use crate::collections::raw_vec::RawVec;
use crate::traits::same_footing;
use crate::traits::SingleRangeStorage;
use crate::traits::StorageError;
use vstd::prelude::*;

verus! {

/// A slot of a node storage: free, and then a link of the chain of free
/// slots, or used by a node.
#[derive(Clone, Copy)]
pub enum NodeSlot<N> {
    /// The slot holds no node. `next_free` is the free slot after this one.
    Free { next_free: Option<usize> },
    /// The slot holds `node`.
    Used { node: N },
}

/// The link that the free slot at position `position` of the chain `free`
/// holds: the slot after it, if there is one.
pub open spec fn free_link(free: Seq<usize>, position: int) -> Option<usize> {
    if position + 1 < free.len() {
        Some(free[position + 1])
    } else {
        None
    }
}

/// Slots for nodes, handed out one by one.
///
/// A handle is the index of a slot. Allocating takes a freed slot where
/// there is one and appends a slot otherwise, so no node ever moves: a
/// handle stays valid until its own node is released.
pub struct RawLinkedListNodeStorage<N, S: SingleRangeStorage<NodeSlot<N>>> {
    slots: RawVec<NodeSlot<N>, S>,
    live: usize,
    free_head: Option<usize>,
    free: Ghost<Seq<usize>>,
}

impl<N, S: SingleRangeStorage<NodeSlot<N>>> RawLinkedListNodeStorage<N, S> {
    /// The buffer of slots, as a mathematical value.
    pub closed spec fn spec_slots(&self) -> RawVec<NodeSlot<N>, S> {
        self.slots
    }

    /// The number of freed slots that wait to be used again.
    pub closed spec fn spec_free_count(&self) -> nat {
        self.free@.len()
    }

    /// The number of nodes, as a mathematical value.
    pub closed spec fn spec_len(&self) -> nat {
        self.live as nat
    }

    /// The largest number of nodes that the storage can ever hold.
    pub open spec fn spec_max_len(&self) -> nat {
        self.spec_slots().spec_storage().spec_max_capacity()
    }

    /// Whether `handle` names a node.
    pub open spec fn is_live(&self, handle: usize) -> bool {
        &&& handle < self.spec_slots()@.len()
        &&& self.spec_slots()@[handle as int] is Used
    }

    /// The node that `handle` names.
    pub open spec fn node(&self, handle: usize) -> N
        recommends
            self.is_live(handle),
    {
        self.spec_slots()@[handle as int]->node
    }

    /// Whether every handle but `handle` names in `after` what it named in
    /// `before`.
    pub open spec fn others_unchanged(before: Self, after: Self, handle: usize) -> bool {
        forall|other: usize|
            other != handle ==> {
                &&& #[trigger] after.is_live(other) == before.is_live(other)
                &&& before.is_live(other) ==> after.node(other) == before.node(other)
            }
    }

    /// Whether `after` has as many slots as `before`, in a storage of the
    /// same capacity and bounds.
    pub open spec fn same_room(before: Self, after: Self) -> bool {
        &&& after.spec_slots()@.len() == before.spec_slots()@.len()
        &&& RawVec::<NodeSlot<N>, S>::same_room(before.spec_slots(), after.spec_slots())
    }

    /// What `allocate` promises of the room for nodes when `after` and
    /// `result` came of `before`.
    ///
    /// Where a freed slot waits, it is used: the request succeeds and the
    /// storage is not asked. Otherwise a slot is appended, and the storage
    /// grows for it as a buffer does for one more element.
    pub open spec fn room_made(
        before: Self,
        after: Self,
        result: Result<usize, StorageError>,
    ) -> bool {
        &&& before.spec_free_count() > 0 ==> {
            &&& result is Ok
            &&& after.spec_free_count() == before.spec_free_count() - 1
            &&& Self::same_room(before, after)
        }
        &&& before.spec_free_count() == 0 ==> {
            &&& RawVec::<NodeSlot<N>, S>::reserved(
                before.spec_slots(),
                after.spec_slots(),
                1,
                match result {
                    Ok(_) => Ok(()),
                    Err(error) => Err(error),
                },
            )
            &&& after.spec_free_count() == 0
            &&& result matches Ok(handle) ==> {
                &&& handle == before.spec_slots()@.len()
                &&& after.spec_slots()@.len() == before.spec_slots()@.len() + 1
            }
        }
        &&& result is Err ==> {
            &&& after.spec_slots()@ == before.spec_slots()@
            &&& after.spec_free_count() == before.spec_free_count()
        }
    }

    /// The representation invariant: the buffer is well formed, and the free
    /// slots are exactly those of the chain that starts at the head.
    pub closed spec fn wf(&self) -> bool {
        &&& self.slots.wf()
        &&& self.live + self.free@.len() == self.slots@.len()
        &&& self.free@.no_duplicates()
        &&& self.free_head == if self.free@.len() > 0 {
            Some(self.free@[0])
        } else {
            None
        }
        &&& forall|position: int|
            0 <= position < self.free@.len() ==> {
                &&& (#[trigger] self.free@[position]) < self.slots@.len()
                &&& self.slots@[self.free@[position] as int] == (NodeSlot::<N>::Free {
                    next_free: free_link(self.free@, position),
                })
            }
        &&& forall|index: usize|
            index < self.slots@.len() && (#[trigger] self.slots@[index as int]) is Free
                ==> self.free@.contains(index)
    }

    /// The buffer of slots of a well-formed node storage is well formed, and
    /// each of its slots holds a node or waits to be used again.
    pub proof fn lemma_slots_wf(&self)
        requires
            self.wf(),
        ensures
            self.spec_slots().wf(),
            self.spec_len() + self.spec_free_count() == self.spec_slots()@.len(),
    {
    }

    /// A node storage over `storage`, with no node in it.
    pub fn new(storage: S) -> (nodes: Self)
        requires
            storage.wf(),
        ensures
            nodes.wf(),
            forall|handle: usize| !nodes.is_live(handle),
            nodes.spec_free_count() == 0,
            nodes.spec_len() == 0,
            nodes.spec_slots()@.len() == 0,
            same_footing::<NodeSlot<N>, S>(storage, nodes.spec_slots().spec_storage()),
    {
        RawLinkedListNodeStorage {
            slots: RawVec::new(storage),
            live: 0,
            free_head: None,
            free: Ghost(Seq::empty()),
        }
    }

    /// The number of nodes.
    pub fn len(&self) -> (len: usize)
        requires
            self.wf(),
        ensures
            len == self.spec_len(),
    {
        self.live
    }

    /// The storage behind the slots.
    pub fn storage(&self) -> (storage: &S)
        ensures
            *storage == self.spec_slots().spec_storage(),
    {
        self.slots.storage()
    }

    /// Puts `node` into a slot and hands out the handle of that slot.
    ///
    /// A freed slot is used where there is one. Otherwise a slot is
    /// appended, and the storage grows for it as a buffer does for a push;
    /// only that can fail. No other handle is touched, whatever comes of it.
    ///
    /// A storage that holds as many nodes as its bound allows is not to be
    /// asked for another.
    pub fn allocate(&mut self, node: N) -> (result: Result<usize, StorageError>)
        requires
            old(self).wf(),
            old(self).spec_len() < old(self).spec_max_len(),
        ensures
            final(self).wf(),
            Self::room_made(*old(self), *final(self), result),
            final(self).spec_len() == old(self).spec_len() + if result is Ok {
                1nat
            } else {
                0nat
            },
            match result {
                Ok(handle) => {
                    &&& !old(self).is_live(handle)
                    &&& final(self).is_live(handle)
                    &&& final(self).node(handle) == node
                    &&& Self::others_unchanged(*old(self), *final(self), handle)
                },
                Err(_) => forall|handle: usize|
                    {
                        &&& #[trigger] final(self).is_live(handle) == old(self).is_live(handle)
                        &&& old(self).is_live(handle) ==> final(self).node(handle)
                            == old(self).node(handle)
                    },
            },
    {
        match self.free_head {
            Some(handle) => {
                let ghost chain = self.free@;
                assert(chain[0] == handle);
                let next_free = match self.slots.get(handle) {
                    NodeSlot::Free { next_free } => *next_free,
                    NodeSlot::Used { .. } => vstd::pervasive::unreached(),
                };
                proof {
                    self.slots.lemma_len_within_capacity();
                }
                self.slots.set(handle, NodeSlot::Used { node });
                self.live = self.live + 1;
                self.free_head = next_free;
                self.free = Ghost(chain.drop_first());
                proof {
                    let rest = chain.drop_first();
                    assert forall|position: int| 0 <= position < rest.len() implies {
                        &&& (#[trigger] rest[position]) < self.slots@.len()
                        &&& self.slots@[rest[position] as int] == (NodeSlot::<N>::Free {
                            next_free: free_link(rest, position),
                        })
                    } by {
                        assert(rest[position] == chain[position + 1]);
                        assert(chain[position + 1] != chain[0]);
                        assert(free_link(rest, position) == free_link(chain, position + 1));
                    }
                    assert forall|index: usize|
                        index < self.slots@.len() && (#[trigger] self.slots@[index as int]) is Free
                    implies rest.contains(index) by {
                        assert(old(self).slots@[index as int] is Free);
                        assert(chain.contains(index));
                        let position = choose|position: int|
                            0 <= position < chain.len() && chain[position] == index;
                        assert(position > 0);
                        assert(rest[position - 1] == index);
                    }
                    assert(free_link(chain, 0) == next_free);
                }
                Ok(handle)
            },
            None => {
                let handle = self.slots.len();
                match self.slots.push(NodeSlot::Used { node }) {
                    Ok(()) => {
                        proof {
                            self.slots.lemma_len_within_capacity();
                        }
                        self.live = self.live + 1;
                        proof {
                            assert forall|index: usize|
                                index < self.slots@.len() && (
                                #[trigger] self.slots@[index as int]) is Free
                            implies self.free@.contains(index) by {
                                assert(old(self).slots@[index as int] is Free);
                            }
                        }
                        Ok(handle)
                    },
                    Err(error) => Err(error),
                }
            },
        }
    }

    /// Frees the slot that `handle` names and hands out its node. Every
    /// other handle names what it named before.
    pub fn release(&mut self, handle: usize) -> (node: N)
        requires
            old(self).wf(),
            old(self).is_live(handle),
        ensures
            final(self).wf(),
            node == old(self).node(handle),
            !final(self).is_live(handle),
            Self::others_unchanged(*old(self), *final(self), handle),
            final(self).spec_free_count() == old(self).spec_free_count() + 1,
            final(self).spec_len() == old(self).spec_len() - 1,
            Self::same_room(*old(self), *final(self)),
    {
        let ghost chain = self.free@;
        proof {
            let longer = seq![handle] + chain;
            assert(!chain.contains(handle)) by {
                if chain.contains(handle) {
                    let position = choose|position: int|
                        0 <= position < chain.len() && chain[position] == handle;
                    assert(self.slots@[chain[position] as int] is Free);
                }
            }
            assert(longer.no_duplicates());
            assert forall|position: int| 0 <= position < longer.len() implies longer[position]
                < self.slots@.len() by {
                if position > 0 {
                    assert(longer[position] == chain[position - 1]);
                }
            }
            lemma_distinct_bounded(longer, self.slots@.len());
        }
        let freed = NodeSlot::Free { next_free: self.free_head };
        let previous = self.slots.replace(handle, freed);
        self.live = self.live - 1;
        self.free_head = Some(handle);
        self.free = Ghost(seq![handle] + chain);
        proof {
            let longer = seq![handle] + chain;
            assert(!chain.contains(handle)) by {
                if chain.contains(handle) {
                    let position = choose|position: int|
                        0 <= position < chain.len() && chain[position] == handle;
                    assert(old(self).slots@[chain[position] as int] is Free);
                }
            }
            assert(longer.no_duplicates());
            assert forall|position: int| 0 <= position < longer.len() implies {
                &&& (#[trigger] longer[position]) < self.slots@.len()
                &&& self.slots@[longer[position] as int] == (NodeSlot::<N>::Free {
                    next_free: free_link(longer, position),
                })
            } by {
                if position > 0 {
                    assert(longer[position] == chain[position - 1]);
                    assert(free_link(longer, position) == free_link(chain, position - 1));
                } else {
                    assert(free_link(longer, 0) == old(self).free_head);
                }
            }
            assert forall|index: usize|
                index < self.slots@.len() && (#[trigger] self.slots@[index as int]) is Free
            implies longer.contains(index) by {
                if index == handle {
                    assert(longer[0] == handle);
                } else {
                    assert(old(self).slots@[index as int] is Free);
                    let position = choose|position: int|
                        0 <= position < chain.len() && chain[position] == index;
                    assert(longer[position + 1] == index);
                }
            }
        }
        match previous {
            NodeSlot::Used { node } => node,
            NodeSlot::Free { .. } => vstd::pervasive::unreached(),
        }
    }

    /// The node that `handle` names.
    pub fn get(&self, handle: usize) -> (node: &N)
        requires
            self.wf(),
            self.is_live(handle),
        ensures
            *node == self.node(handle),
    {
        match self.slots.get(handle) {
            NodeSlot::Used { node } => node,
            NodeSlot::Free { .. } => vstd::pervasive::unreached(),
        }
    }

    /// Gives access to the node that `handle` names, to change it in place.
    /// Every other handle names what it named before.
    pub fn get_mut(&mut self, handle: usize) -> (node: &mut N)
        requires
            old(self).wf(),
            old(self).is_live(handle),
        ensures
            *node == old(self).node(handle),
            final(self).wf(),
            final(self).is_live(handle),
            final(self).node(handle) == *final(node),
            Self::others_unchanged(*old(self), *final(self), handle),
            final(self).spec_free_count() == old(self).spec_free_count(),
            final(self).spec_len() == old(self).spec_len(),
            Self::same_room(*old(self), *final(self)),
    {
        match self.slots.get_mut(handle) {
            NodeSlot::Used { node } => node,
            NodeSlot::Free { .. } => vstd::pervasive::unreached(),
        }
    }
}

/// The handle before position `position` of `handles`, if there is one.
pub open spec fn handle_before(handles: Seq<usize>, position: int) -> Option<usize> {
    if 0 < position <= handles.len() {
        Some(handles[position - 1])
    } else {
        None
    }
}

/// The handle after position `position` of `handles`, if there is one.
pub open spec fn handle_after(handles: Seq<usize>, position: int) -> Option<usize> {
    if -1 <= position < handles.len() - 1 {
        Some(handles[position + 1])
    } else {
        None
    }
}

/// The link that a node of a chain holds once the node at `gap` is taken
/// out: what it held, or, where it held the handle of that node, what that
/// node held in the same direction.
pub open spec fn link_past(gap_handle: usize, held: Option<usize>, beyond: Option<usize>) -> Option<
    usize,
> {
    if held == Some(gap_handle) {
        beyond
    } else {
        held
    }
}

/// Where the handle at `place` stands once the one at `gap` is taken out of
/// `handles`.
pub open spec fn place_after_removal(gap: int, place: int) -> int {
    if place < gap {
        place
    } else {
        place - 1
    }
}

/// Taking one handle out of distinct handles leaves every other handle in
/// the sequence, with the neighbours it had; where the handle taken out was
/// its neighbour, the handle beyond that one takes the place.
pub proof fn lemma_neighbours_in_shorter(handles: Seq<usize>, gap: int, place: int)
    requires
        handles.no_duplicates(),
        0 <= gap < handles.len(),
        0 <= place < handles.len(),
        place != gap,
    ensures
        0 <= place_after_removal(gap, place) < handles.remove(gap).len(),
        handles.remove(gap)[place_after_removal(gap, place)] == handles[place],
        handle_after(handles.remove(gap), place_after_removal(gap, place)) == link_past(
            handles[gap],
            handle_after(handles, place),
            handle_after(handles, gap),
        ),
        handle_before(handles.remove(gap), place_after_removal(gap, place)) == link_past(
            handles[gap],
            handle_before(handles, place),
            handle_before(handles, gap),
        ),
{
    let shorter = handles.remove(gap);
    let moved = place_after_removal(gap, place);
    if moved + 1 < shorter.len() {
        assert(shorter[moved + 1] == if moved + 1 < gap {
            handles[moved + 1]
        } else {
            handles[moved + 2]
        });
    }
    if moved > 0 {
        assert(shorter[moved - 1] == if moved - 1 < gap {
            handles[moved - 1]
        } else {
            handles[moved]
        });
    }
    if place + 1 < handles.len() {
        assert(handles[place + 1] == handles[gap] <==> place + 1 == gap);
    }
    if place > 0 {
        assert(handles[place - 1] == handles[gap] <==> place - 1 == gap);
    }
}

/// Distinct numbers below a bound are no more than the bound.
pub proof fn lemma_distinct_bounded(numbers: Seq<usize>, bound: nat)
    requires
        numbers.no_duplicates(),
        forall|i: int| 0 <= i < numbers.len() ==> numbers[i] < bound,
    ensures
        numbers.len() <= bound,
    decreases bound,
{
    if numbers.len() > 0 {
        assert(numbers[0] < bound);
        let top = (bound - 1) as nat;
        if exists|k: int| 0 <= k < numbers.len() && numbers[k] == top {
            let k = choose|k: int| 0 <= k < numbers.len() && numbers[k] == top;
            let rest = numbers.remove(k);
            assert forall|i: int| 0 <= i < rest.len() implies rest[i] < top by {
                if i < k {
                    assert(rest[i] == numbers[i]);
                } else {
                    assert(rest[i] == numbers[i + 1]);
                }
            }
            assert(rest.no_duplicates());
            lemma_distinct_bounded(rest, top);
        } else {
            lemma_distinct_bounded(numbers, top);
        }
    }
}

/// A node of the list: a value and the handles of its neighbours.
#[derive(Clone, Copy)]
pub struct RawLinkedListNode<T> {
    /// The value of the node.
    pub value: T,
    /// The handle of the node before this one.
    pub prev: Option<usize>,
    /// The handle of the node after this one.
    pub next: Option<usize>,
}

/// Whether `handles` are distinct and name exactly the nodes of `nodes`,
/// each linked to the one before and the one after it in `handles`.
#[verifier::opaque]
pub open spec fn linked<T, S: SingleRangeStorage<NodeSlot<RawLinkedListNode<T>>>>(
    nodes: RawLinkedListNodeStorage<RawLinkedListNode<T>, S>,
    handles: Seq<usize>,
) -> bool {
    &&& handles.no_duplicates()
    &&& forall|position: int|
        0 <= position < handles.len() ==> {
            &&& nodes.is_live(#[trigger] handles[position])
            &&& nodes.node(handles[position]).prev == handle_before(handles, position)
            &&& nodes.node(handles[position]).next == handle_after(handles, position)
        }
    &&& forall|handle: usize| #[trigger] nodes.is_live(handle) ==> handles.contains(handle)
}

/// The values of the nodes that `handles` name, in the order of `handles`.
pub open spec fn values<T, S: SingleRangeStorage<NodeSlot<RawLinkedListNode<T>>>>(
    nodes: RawLinkedListNodeStorage<RawLinkedListNode<T>, S>,
    handles: Seq<usize>,
) -> Seq<T> {
    Seq::new(handles.len(), |i: int| nodes.node(handles[i]).value)
}

/// The handle at `position` of a linked chain names a live node that holds
/// the handles before and after it.
pub proof fn lemma_linked_at<T, S: SingleRangeStorage<NodeSlot<RawLinkedListNode<T>>>>(
    nodes: RawLinkedListNodeStorage<RawLinkedListNode<T>, S>,
    handles: Seq<usize>,
    position: int,
)
    requires
        linked(nodes, handles),
        0 <= position < handles.len(),
    ensures
        nodes.is_live(handles[position]),
        nodes.node(handles[position]).prev == handle_before(handles, position),
        nodes.node(handles[position]).next == handle_after(handles, position),
        values(nodes, handles)[position] == nodes.node(handles[position]).value,
{
    reveal(linked);
}

/// The handles of a linked chain are distinct, and every live node is named
/// by one of them, at the place where it is found.
pub proof fn lemma_linked_names<T, S: SingleRangeStorage<NodeSlot<RawLinkedListNode<T>>>>(
    nodes: RawLinkedListNodeStorage<RawLinkedListNode<T>, S>,
    handles: Seq<usize>,
    handle: usize,
)
    requires
        linked(nodes, handles),
    ensures
        handles.no_duplicates(),
        nodes.is_live(handle) <==> handles.contains(handle),
        handles.contains(handle) ==> {
            &&& 0 <= handles.index_of(handle) < handles.len()
            &&& handles[handles.index_of(handle)] == handle
        },
{
    reveal(linked);
    if handles.contains(handle) {
        let position = choose|position: int|
            0 <= position < handles.len() && handles[position] == handle;
        assert(nodes.is_live(handles[position]));
    }
}

/// A storage without nodes is linked by no handles.
proof fn lemma_linked_empty<T, S: SingleRangeStorage<NodeSlot<RawLinkedListNode<T>>>>(
    nodes: RawLinkedListNodeStorage<RawLinkedListNode<T>, S>,
)
    requires
        forall|handle: usize| !nodes.is_live(handle),
    ensures
        linked(nodes, Seq::<usize>::empty()),
        values(nodes, Seq::<usize>::empty()) == Seq::<T>::empty(),
{
    reveal(linked);
    assert(values(nodes, Seq::<usize>::empty()) =~= Seq::<T>::empty());
}

/// A chain stays linked, with its values, where every handle names what it
/// named.
proof fn lemma_linked_same<T, S: SingleRangeStorage<NodeSlot<RawLinkedListNode<T>>>>(
    before: RawLinkedListNodeStorage<RawLinkedListNode<T>, S>,
    after: RawLinkedListNodeStorage<RawLinkedListNode<T>, S>,
    handles: Seq<usize>,
)
    requires
        linked(before, handles),
        forall|handle: usize|
            {
                &&& #[trigger] after.is_live(handle) == before.is_live(handle)
                &&& before.is_live(handle) ==> after.node(handle) == before.node(handle)
            },
    ensures
        linked(after, handles),
        values(after, handles) == values(before, handles),
{
    reveal(linked);
    assert forall|position: int| 0 <= position < handles.len() implies {
        &&& after.is_live(#[trigger] handles[position])
        &&& after.node(handles[position]) == before.node(handles[position])
    } by {
        assert(before.is_live(handles[position]));
        assert(after.is_live(handles[position]) == before.is_live(handles[position]));
    }
    assert forall|handle: usize| #[trigger] after.is_live(handle) implies handles.contains(
        handle,
    ) by {
        assert(after.is_live(handle) == before.is_live(handle));
    }
    assert(values(after, handles) =~= values(before, handles));
}

/// Appending a node to a linked chain, and pointing the node that was last
/// at it, gives a linked chain with the value of the node at its end.
proof fn lemma_linked_push_back<T, S: SingleRangeStorage<NodeSlot<RawLinkedListNode<T>>>>(
    before: RawLinkedListNodeStorage<RawLinkedListNode<T>, S>,
    allocated: RawLinkedListNodeStorage<RawLinkedListNode<T>, S>,
    after: RawLinkedListNodeStorage<RawLinkedListNode<T>, S>,
    handles: Seq<usize>,
    handle: usize,
)
    requires
        linked(before, handles),
        !before.is_live(handle),
        allocated.is_live(handle),
        allocated.node(handle).prev == handle_before(handles, handles.len() as int),
        allocated.node(handle).next == None::<usize>,
        RawLinkedListNodeStorage::others_unchanged(before, allocated, handle),
        handles.len() == 0 ==> after == allocated,
        handles.len() > 0 ==> {
            &&& after.is_live(handles.last())
            &&& after.node(handles.last()).value == allocated.node(handles.last()).value
            &&& after.node(handles.last()).prev == allocated.node(handles.last()).prev
            &&& after.node(handles.last()).next == Some(handle)
            &&& RawLinkedListNodeStorage::others_unchanged(allocated, after, handles.last())
        },
    ensures
        !handles.contains(handle),
        linked(after, handles.push(handle)),
        values(after, handles.push(handle)) == values(before, handles).push(
            allocated.node(handle).value,
        ),
{
    reveal(linked);
    let longer = handles.push(handle);
    assert(!handles.contains(handle)) by {
        if handles.contains(handle) {
            let position = choose|position: int|
                0 <= position < handles.len() && handles[position] == handle;
            assert(before.is_live(handles[position]));
        }
    }
    assert(longer.no_duplicates());
    assert forall|position: int| 0 <= position < handles.len() implies {
        &&& allocated.is_live(handles[position])
        &&& allocated.node(handles[position]) == before.node(handles[position])
    } by {
        assert(before.is_live(handles[position]));
        assert(allocated.is_live(handles[position]) == before.is_live(handles[position]));
    }
    assert(after.is_live(handle) && after.node(handle) == allocated.node(handle)) by {
        if handles.len() > 0 {
            assert(handles.last() == handles[handles.len() - 1]);
            assert(after.is_live(handle) == allocated.is_live(handle));
        }
    }
    assert forall|position: int| 0 <= position < handles.len() - 1 implies {
        &&& after.is_live(handles[position])
        &&& after.node(handles[position]) == before.node(handles[position])
    } by {
        assert(handles[position] != handles[handles.len() - 1]);
        assert(after.is_live(handles[position]) == allocated.is_live(handles[position]));
    }
    assert forall|position: int| 0 <= position < longer.len() implies {
        &&& after.is_live(#[trigger] longer[position])
        &&& after.node(longer[position]).prev == handle_before(longer, position)
        &&& after.node(longer[position]).next == handle_after(longer, position)
    } by {
        if position < handles.len() {
            assert(longer[position] == handles[position]);
            assert(before.is_live(handles[position]));
        }
    }
    assert forall|other: usize| #[trigger] after.is_live(other) implies longer.contains(
        other,
    ) by {
        if other == handle {
            assert(longer[handles.len() as int] == handle);
        } else {
            if handles.len() > 0 && other == handles.last() {
                assert(longer[handles.len() - 1] == other);
            } else {
                assert(after.is_live(other) == allocated.is_live(other));
                assert(allocated.is_live(other) == before.is_live(other));
                assert(handles.contains(other));
                let position = choose|position: int|
                    0 <= position < handles.len() && handles[position] == other;
                assert(longer[position] == other);
            }
        }
    }
    assert(values(after, longer) =~= values(before, handles).push(allocated.node(handle).value))
        by {
        assert forall|position: int| 0 <= position < handles.len() implies values(
            after,
            longer,
        )[position] == values(before, handles)[position] by {
            assert(longer[position] == handles[position]);
        }
    }
}

/// Putting a node before a linked chain, and pointing the node that was
/// first at it, gives a linked chain with the value of the node at its
/// start.
proof fn lemma_linked_push_front<T, S: SingleRangeStorage<NodeSlot<RawLinkedListNode<T>>>>(
    before: RawLinkedListNodeStorage<RawLinkedListNode<T>, S>,
    allocated: RawLinkedListNodeStorage<RawLinkedListNode<T>, S>,
    after: RawLinkedListNodeStorage<RawLinkedListNode<T>, S>,
    handles: Seq<usize>,
    handle: usize,
)
    requires
        linked(before, handles),
        !before.is_live(handle),
        allocated.is_live(handle),
        allocated.node(handle).prev == None::<usize>,
        allocated.node(handle).next == handle_after(handles, -1),
        RawLinkedListNodeStorage::others_unchanged(before, allocated, handle),
        handles.len() == 0 ==> after == allocated,
        handles.len() > 0 ==> {
            &&& after.is_live(handles[0])
            &&& after.node(handles[0]).value == allocated.node(handles[0]).value
            &&& after.node(handles[0]).next == allocated.node(handles[0]).next
            &&& after.node(handles[0]).prev == Some(handle)
            &&& RawLinkedListNodeStorage::others_unchanged(allocated, after, handles[0])
        },
    ensures
        !handles.contains(handle),
        linked(after, seq![handle] + handles),
        values(after, seq![handle] + handles) == seq![allocated.node(handle).value] + values(
            before,
            handles,
        ),
{
    reveal(linked);
    let longer = seq![handle] + handles;
    assert(!handles.contains(handle)) by {
        if handles.contains(handle) {
            let position = choose|position: int|
                0 <= position < handles.len() && handles[position] == handle;
            assert(before.is_live(handles[position]));
        }
    }
    assert(longer.no_duplicates());
    assert forall|position: int| 0 <= position < handles.len() implies {
        &&& allocated.is_live(handles[position])
        &&& allocated.node(handles[position]) == before.node(handles[position])
    } by {
        assert(before.is_live(handles[position]));
        assert(allocated.is_live(handles[position]) == before.is_live(handles[position]));
    }
    assert(after.is_live(handle) && after.node(handle) == allocated.node(handle)) by {
        if handles.len() > 0 {
            assert(after.is_live(handle) == allocated.is_live(handle));
        }
    }
    assert forall|position: int| 1 <= position < handles.len() implies {
        &&& after.is_live(handles[position])
        &&& after.node(handles[position]) == before.node(handles[position])
    } by {
        assert(handles[position] != handles[0]);
        assert(after.is_live(handles[position]) == allocated.is_live(handles[position]));
    }
    assert forall|position: int| 0 <= position < longer.len() implies {
        &&& after.is_live(#[trigger] longer[position])
        &&& after.node(longer[position]).prev == handle_before(longer, position)
        &&& after.node(longer[position]).next == handle_after(longer, position)
    } by {
        if position > 0 {
            assert(longer[position] == handles[position - 1]);
            assert(before.is_live(handles[position - 1]));
            if position > 1 {
                assert(longer[position - 1] == handles[position - 2]);
            }
            if position < longer.len() - 1 {
                assert(longer[position + 1] == handles[position]);
            }
        } else {
            if handles.len() > 0 {
                assert(longer[1] == handles[0]);
            }
        }
    }
    assert forall|other: usize| #[trigger] after.is_live(other) implies longer.contains(
        other,
    ) by {
        if other == handle {
            assert(longer[0] == handle);
        } else {
            if handles.len() > 0 && other == handles[0] {
                assert(longer[1] == other);
            } else {
                assert(after.is_live(other) == allocated.is_live(other));
                assert(allocated.is_live(other) == before.is_live(other));
                assert(handles.contains(other));
                let position = choose|position: int|
                    0 <= position < handles.len() && handles[position] == other;
                assert(longer[position + 1] == other);
            }
        }
    }
    assert(values(after, longer) =~= seq![allocated.node(handle).value] + values(before, handles))
        by {
        assert forall|position: int| 1 <= position < longer.len() implies values(
            after,
            longer,
        )[position] == values(before, handles)[position - 1] by {
            assert(longer[position] == handles[position - 1]);
        }
    }
}

/// The neighbours of a node of a linked chain are live nodes other than
/// the node itself, and they stay live when that node is released.
proof fn lemma_neighbours_live<T, S: SingleRangeStorage<NodeSlot<RawLinkedListNode<T>>>>(
    before: RawLinkedListNodeStorage<RawLinkedListNode<T>, S>,
    released: RawLinkedListNodeStorage<RawLinkedListNode<T>, S>,
    handles: Seq<usize>,
    position: int,
)
    requires
        linked(before, handles),
        0 <= position < handles.len(),
        RawLinkedListNodeStorage::others_unchanged(before, released, handles[position]),
    ensures
        before.is_live(handles[position]),
        before.node(handles[position]).prev == handle_before(handles, position),
        before.node(handles[position]).next == handle_after(handles, position),
        position > 0 ==> {
            &&& handles[position - 1] != handles[position]
            &&& released.is_live(handles[position - 1])
            &&& released.node(handles[position - 1]) == before.node(handles[position - 1])
        },
        position < handles.len() - 1 ==> {
            &&& handles[position + 1] != handles[position]
            &&& released.is_live(handles[position + 1])
            &&& released.node(handles[position + 1]) == before.node(handles[position + 1])
        },
        0 < position < handles.len() - 1 ==> handles[position - 1] != handles[position + 1],
{
    reveal(linked);
    if position > 0 {
        assert(before.is_live(handles[position - 1]));
        assert(released.is_live(handles[position - 1]) == before.is_live(handles[position - 1]));
    }
    if position < handles.len() - 1 {
        assert(before.is_live(handles[position + 1]));
        assert(released.is_live(handles[position + 1]) == before.is_live(handles[position + 1]));
    }
}

/// The ends of a sequence of handles once the handle at `gap` is taken out.
proof fn lemma_ends_of_shorter(handles: Seq<usize>, gap: int)
    requires
        0 <= gap < handles.len(),
    ensures
        handle_after(handles.remove(gap), -1) == if gap == 0 {
            handle_after(handles, 0)
        } else {
            handle_after(handles, -1)
        },
        handle_before(handles.remove(gap), handles.remove(gap).len() as int) == if gap
            == handles.len() - 1 {
            handle_before(handles, gap)
        } else {
            handle_before(handles, handles.len() as int)
        },
{
    let shorter = handles.remove(gap);
    if shorter.len() > 0 {
        assert(shorter[0] == if gap == 0 {
            handles[1]
        } else {
            handles[0]
        });
        assert(shorter[shorter.len() - 1] == if gap == handles.len() - 1 {
            handles[gap - 1]
        } else {
            handles[handles.len() - 1]
        });
    }
}

/// The steps by which the node at `position` leaves a chain: the node is
/// released, the node before it is pointed at the node after it, and the
/// node after it at the node before it.
spec fn removal_steps<T, S: SingleRangeStorage<NodeSlot<RawLinkedListNode<T>>>>(
    before: RawLinkedListNodeStorage<RawLinkedListNode<T>, S>,
    released: RawLinkedListNodeStorage<RawLinkedListNode<T>, S>,
    relinked: RawLinkedListNodeStorage<RawLinkedListNode<T>, S>,
    after: RawLinkedListNodeStorage<RawLinkedListNode<T>, S>,
    handles: Seq<usize>,
    position: int,
) -> bool {
    &&& linked(before, handles)
    &&& 0 <= position < handles.len()
    &&& !released.is_live(handles[position])
    &&& RawLinkedListNodeStorage::others_unchanged(before, released, handles[position])
    &&& position == 0 ==> relinked == released
    &&& position > 0 ==> {
        &&& relinked.is_live(handles[position - 1])
        &&& relinked.node(handles[position - 1]).value == released.node(
            handles[position - 1],
        ).value
        &&& relinked.node(handles[position - 1]).prev == released.node(handles[position - 1]).prev
        &&& relinked.node(handles[position - 1]).next == handle_after(handles, position)
        &&& RawLinkedListNodeStorage::others_unchanged(released, relinked, handles[position - 1])
    }
    &&& position == handles.len() - 1 ==> after == relinked
    &&& position < handles.len() - 1 ==> {
        &&& after.is_live(handles[position + 1])
        &&& after.node(handles[position + 1]).value == relinked.node(handles[position + 1]).value
        &&& after.node(handles[position + 1]).next == relinked.node(handles[position + 1]).next
        &&& after.node(handles[position + 1]).prev == handle_before(handles, position)
        &&& RawLinkedListNodeStorage::others_unchanged(relinked, after, handles[position + 1])
    }
}

/// Whether `after` holds the nodes that `handles` name in `before`, but for
/// the one at `position`: every other node is live with its value, and holds
/// the links it held, but for the links to the missing node, which go past
/// it; and no other node is live.
#[verifier::opaque]
spec fn nodes_without<T, S: SingleRangeStorage<NodeSlot<RawLinkedListNode<T>>>>(
    before: RawLinkedListNodeStorage<RawLinkedListNode<T>, S>,
    after: RawLinkedListNodeStorage<RawLinkedListNode<T>, S>,
    handles: Seq<usize>,
    position: int,
) -> bool {
    &&& forall|place: int|
        0 <= place < handles.len() && place != position ==> {
            &&& after.is_live(#[trigger] handles[place])
            &&& after.node(handles[place]).value == before.node(handles[place]).value
            &&& after.node(handles[place]).prev == link_past(
                handles[position],
                handle_before(handles, place),
                handle_before(handles, position),
            )
            &&& after.node(handles[place]).next == link_past(
                handles[position],
                handle_after(handles, place),
                handle_after(handles, position),
            )
        }
    &&& forall|other: usize| #[trigger]
        after.is_live(other) ==> other != handles[position] && before.is_live(other)
}

/// What the nodes of a linked chain look like once the node at `position`
/// was released and its two neighbours were pointed at each other.
proof fn lemma_nodes_after_remove<T, S: SingleRangeStorage<NodeSlot<RawLinkedListNode<T>>>>(
    before: RawLinkedListNodeStorage<RawLinkedListNode<T>, S>,
    released: RawLinkedListNodeStorage<RawLinkedListNode<T>, S>,
    relinked: RawLinkedListNodeStorage<RawLinkedListNode<T>, S>,
    after: RawLinkedListNodeStorage<RawLinkedListNode<T>, S>,
    handles: Seq<usize>,
    position: int,
)
    requires
        removal_steps(before, released, relinked, after, handles, position),
    ensures
        nodes_without(before, after, handles, position),
{
    reveal(linked);
    reveal(nodes_without);
    let removed = handles[position];
    assert forall|place: int| 0 <= place < handles.len() && place != position implies {
        &&& after.is_live(#[trigger] handles[place])
        &&& after.node(handles[place]).value == before.node(handles[place]).value
        &&& after.node(handles[place]).prev == link_past(
            removed,
            handle_before(handles, place),
            handle_before(handles, position),
        )
        &&& after.node(handles[place]).next == link_past(
            removed,
            handle_after(handles, place),
            handle_after(handles, position),
        )
    } by {
        let kept = handles[place];
        assert(before.is_live(kept));
        assert(kept != removed);
        assert(released.is_live(kept) == before.is_live(kept));
        if position > 0 && place != position - 1 {
            assert(kept != handles[position - 1]);
            assert(relinked.is_live(kept) == released.is_live(kept));
        }
        if position < handles.len() - 1 && place != position + 1 {
            assert(kept != handles[position + 1]);
            assert(after.is_live(kept) == relinked.is_live(kept));
        }
        if place > 0 {
            assert(handles[place - 1] == removed <==> place - 1 == position);
        }
        if place < handles.len() - 1 {
            assert(handles[place + 1] == removed <==> place + 1 == position);
        }
    }
    assert forall|other: usize| #[trigger] after.is_live(other) implies other != removed
        && before.is_live(other) by {
        if position < handles.len() - 1 && other == handles[position + 1] {
            assert(before.is_live(handles[position + 1]));
            assert(handles[position + 1] != handles[position]);
        } else if position > 0 && other == handles[position - 1] {
            assert(before.is_live(handles[position - 1]));
            assert(handles[position - 1] != handles[position]);
        } else {
            assert(after.is_live(other) == relinked.is_live(other));
            assert(relinked.is_live(other) == released.is_live(other));
            if other != removed {
                assert(released.is_live(other) == before.is_live(other));
            }
        }
    }
}

/// The nodes that stay when one leaves a chain are linked in the order of
/// the handles that stay.
proof fn lemma_shorter_linked<T, S: SingleRangeStorage<NodeSlot<RawLinkedListNode<T>>>>(
    before: RawLinkedListNodeStorage<RawLinkedListNode<T>, S>,
    after: RawLinkedListNodeStorage<RawLinkedListNode<T>, S>,
    handles: Seq<usize>,
    position: int,
)
    requires
        handles.no_duplicates(),
        0 <= position < handles.len(),
        forall|other: usize| #[trigger] before.is_live(other) ==> handles.contains(other),
        nodes_without(before, after, handles, position),
    ensures
        linked(after, handles.remove(position)),
{
    reveal(linked);
    reveal(nodes_without);
    let shorter = handles.remove(position);
    assert(shorter.no_duplicates());
    assert forall|i: int| 0 <= i < shorter.len() implies {
        &&& after.is_live(#[trigger] shorter[i])
        &&& after.node(shorter[i]).prev == handle_before(shorter, i)
        &&& after.node(shorter[i]).next == handle_after(shorter, i)
    } by {
        let place = if i < position {
            i
        } else {
            i + 1
        };
        lemma_neighbours_in_shorter(handles, position, place);
        assert(shorter[i] == handles[place]);
        assert(after.is_live(handles[place]));
    }
    assert forall|other: usize| #[trigger] after.is_live(other) implies shorter.contains(
        other,
    ) by {
        assert(before.is_live(other));
        assert(handles.contains(other));
        let place = choose|place: int| 0 <= place < handles.len() && handles[place] == other;
        lemma_neighbours_in_shorter(handles, position, place);
        assert(shorter[place_after_removal(position, place)] == other);
    }
}

/// The values of the nodes that stay when one leaves a chain are the values
/// the chain had, without the value at the place of that node.
proof fn lemma_shorter_values<T, S: SingleRangeStorage<NodeSlot<RawLinkedListNode<T>>>>(
    before: RawLinkedListNodeStorage<RawLinkedListNode<T>, S>,
    after: RawLinkedListNodeStorage<RawLinkedListNode<T>, S>,
    handles: Seq<usize>,
    position: int,
)
    requires
        0 <= position < handles.len(),
        nodes_without(before, after, handles, position),
    ensures
        values(after, handles.remove(position)) == values(before, handles).remove(position),
        forall|kept: usize|
            handles.contains(kept) && kept != handles[position] ==> {
                &&& #[trigger] after.is_live(kept)
                &&& after.node(kept).value == before.node(kept).value
            },
{
    reveal(nodes_without);
    let shorter = handles.remove(position);
    let taken = values(before, handles).remove(position);
    assert(values(after, shorter).len() == taken.len());
    assert forall|i: int| 0 <= i < shorter.len() implies values(after, shorter)[i]
        == taken[i] by {
        let place = if i < position {
            i
        } else {
            i + 1
        };
        assert(shorter[i] == handles[place]);
        assert(after.is_live(handles[place]));
        assert(taken[i] == values(before, handles)[place]);
    }
    assert(values(after, shorter) =~= taken);
    assert forall|kept: usize| handles.contains(kept) && kept != handles[position] implies {
        &&& #[trigger] after.is_live(kept)
        &&& after.node(kept).value == before.node(kept).value
    } by {
        let place = choose|place: int| 0 <= place < handles.len() && handles[place] == kept;
        assert(after.is_live(handles[place]));
    }
}

/// Taking the node at `position` out of a linked chain, and pointing its
/// two neighbours at each other, gives a linked chain of the other nodes.
proof fn lemma_linked_remove<T, S: SingleRangeStorage<NodeSlot<RawLinkedListNode<T>>>>(
    before: RawLinkedListNodeStorage<RawLinkedListNode<T>, S>,
    released: RawLinkedListNodeStorage<RawLinkedListNode<T>, S>,
    relinked: RawLinkedListNodeStorage<RawLinkedListNode<T>, S>,
    after: RawLinkedListNodeStorage<RawLinkedListNode<T>, S>,
    handles: Seq<usize>,
    position: int,
)
    requires
        removal_steps(before, released, relinked, after, handles, position),
    ensures
        linked(after, handles.remove(position)),
        values(after, handles.remove(position)) == values(before, handles).remove(position),
        forall|kept: usize|
            handles.contains(kept) && kept != handles[position] ==> {
                &&& #[trigger] after.is_live(kept)
                &&& after.node(kept).value == before.node(kept).value
            },
{
    reveal(linked);
    lemma_nodes_after_remove(before, released, relinked, after, handles, position);
    lemma_shorter_linked(before, after, handles, position);
    lemma_shorter_values(before, after, handles, position);
}

/// Whether `after` is `before` but for the value of the node that `handle`
/// names: that node is live in both and holds the same links, and every
/// other handle names what it named.
pub open spec fn only_value_changed<T, S: SingleRangeStorage<NodeSlot<RawLinkedListNode<T>>>>(
    before: RawLinkedListNodeStorage<RawLinkedListNode<T>, S>,
    after: RawLinkedListNodeStorage<RawLinkedListNode<T>, S>,
    handle: usize,
) -> bool {
    &&& before.is_live(handle)
    &&& after.is_live(handle)
    &&& after.node(handle).prev == before.node(handle).prev
    &&& after.node(handle).next == before.node(handle).next
    &&& RawLinkedListNodeStorage::others_unchanged(before, after, handle)
}

/// Changing the value of one node of a linked chain leaves the chain
/// linked, and changes the values of the chain at the place of that node
/// alone.
proof fn lemma_linked_value_changed<T, S: SingleRangeStorage<NodeSlot<RawLinkedListNode<T>>>>(
    before: RawLinkedListNodeStorage<RawLinkedListNode<T>, S>,
    after: RawLinkedListNodeStorage<RawLinkedListNode<T>, S>,
    handles: Seq<usize>,
    position: int,
)
    requires
        linked(before, handles),
        0 <= position < handles.len(),
        only_value_changed(before, after, handles[position]),
    ensures
        linked(after, handles),
        values(after, handles) == values(before, handles).update(
            position,
            after.node(handles[position]).value,
        ),
{
    reveal(linked);
    let changed = handles[position];
    assert forall|place: int| 0 <= place < handles.len() implies {
        &&& after.is_live(#[trigger] handles[place])
        &&& after.node(handles[place]).prev == handle_before(handles, place)
        &&& after.node(handles[place]).next == handle_after(handles, place)
        &&& place != position ==> after.node(handles[place]).value == before.node(
            handles[place],
        ).value
    } by {
        assert(before.is_live(handles[place]));
        if place != position {
            assert(handles[place] != changed);
            assert(after.is_live(handles[place]) == before.is_live(handles[place]));
        }
    }
    assert forall|other: usize| #[trigger] after.is_live(other) implies handles.contains(
        other,
    ) by {
        if other != changed {
            assert(after.is_live(other) == before.is_live(other));
        }
    }
    assert(values(after, handles) =~= values(before, handles).update(
        position,
        after.node(changed).value,
    ));
}

/// A doubly linked list over a node storage.
pub struct RawLinkedList<T, S: SingleRangeStorage<NodeSlot<RawLinkedListNode<T>>>> {
    nodes: RawLinkedListNodeStorage<RawLinkedListNode<T>, S>,
    head: Option<usize>,
    tail: Option<usize>,
    len: usize,
    handles: Ghost<Seq<usize>>,
}

impl<T, S: SingleRangeStorage<NodeSlot<RawLinkedListNode<T>>>> View for RawLinkedList<T, S> {
    type V = Seq<T>;

    closed spec fn view(&self) -> Seq<T> {
        values(self.nodes, self.handles@)
    }
}

impl<T, S: SingleRangeStorage<NodeSlot<RawLinkedListNode<T>>>> RawLinkedList<T, S> {
    /// The node storage behind the list, as a mathematical value.
    pub closed spec fn spec_nodes(&self) -> RawLinkedListNodeStorage<RawLinkedListNode<T>, S> {
        self.nodes
    }

    /// The handles of the nodes, from the first node to the last.
    pub closed spec fn spec_handles(&self) -> Seq<usize> {
        self.handles@
    }

    /// The handle of the first node, as a mathematical value.
    pub closed spec fn spec_front(&self) -> Option<usize> {
        self.head
    }

    /// The handle of the last node, as a mathematical value.
    pub closed spec fn spec_back(&self) -> Option<usize> {
        self.tail
    }

    /// The value of the node that `handle` names.
    pub open spec fn spec_value(&self, handle: usize) -> T {
        self.spec_nodes().node(handle).value
    }

    /// The handle that the node named by `handle` holds for the node after
    /// it.
    pub open spec fn spec_next(&self, handle: usize) -> Option<usize> {
        self.spec_nodes().node(handle).next
    }

    /// The handle that the node named by `handle` holds for the node before
    /// it.
    pub open spec fn spec_prev(&self, handle: usize) -> Option<usize> {
        self.spec_nodes().node(handle).prev
    }

    /// The largest number of elements that the storage can ever hold.
    pub open spec fn spec_max_len(&self) -> nat {
        self.spec_nodes().spec_max_len()
    }

    /// The representation invariant: the handles are distinct and name
    /// exactly the nodes of the storage, each node is linked to the nodes
    /// before and after it, and the list knows its two ends.
    pub closed spec fn wf(&self) -> bool {
        &&& self.nodes.wf()
        &&& self.len == self.handles@.len()
        &&& self.nodes.spec_len() == self.handles@.len()
        &&& self.head == handle_after(self.handles@, -1)
        &&& self.tail == handle_before(self.handles@, self.handles@.len() as int)
        &&& linked(self.nodes, self.handles@)
    }

    /// In a well-formed list the handles are distinct and name exactly the
    /// nodes of the storage, each node links to its neighbours in the list,
    /// the values of the nodes are the elements in order, and the ends are
    /// the first and the last handle.
    pub proof fn lemma_structure(&self)
        requires
            self.wf(),
        ensures
            self.spec_nodes().wf(),
            linked(self.spec_nodes(), self.spec_handles()),
            self@ == values(self.spec_nodes(), self.spec_handles()),
            self@.len() == self.spec_handles().len(),
            self.spec_nodes().spec_len() == self.spec_handles().len(),
            self.spec_front() == handle_after(self.spec_handles(), -1),
            self.spec_back() == handle_before(
                self.spec_handles(),
                self.spec_handles().len() as int,
            ),
    {
    }

    /// Freeing one node leaves every other node in the list under its
    /// handle, linked to the neighbours that remain: where the freed node
    /// was its neighbour, the node beyond the freed one takes that place.
    pub proof fn lemma_neighbours_after_removal(
        before: Self,
        after: Self,
        removed: usize,
        kept: usize,
    )
        requires
            before.wf(),
            after.wf(),
            before.spec_handles().contains(removed),
            before.spec_handles().contains(kept),
            kept != removed,
            after.spec_handles() == before.spec_handles().remove(
                before.spec_handles().index_of(removed),
            ),
        ensures
            after.spec_handles().contains(kept),
            after.spec_nodes().is_live(kept),
            after.spec_next(kept) == link_past(
                removed,
                before.spec_next(kept),
                before.spec_next(removed),
            ),
            after.spec_prev(kept) == link_past(
                removed,
                before.spec_prev(kept),
                before.spec_prev(removed),
            ),
    {
        let handles = before.handles@;
        let gap = handles.index_of(removed);
        let place = handles.index_of(kept);
        let moved = place_after_removal(gap, place);
        lemma_linked_names(before.nodes, handles, removed);
        lemma_linked_names(before.nodes, handles, kept);
        lemma_neighbours_in_shorter(handles, gap, place);
        lemma_linked_at(before.nodes, handles, gap);
        lemma_linked_at(before.nodes, handles, place);
        lemma_linked_at(after.nodes, after.handles@, moved);
    }

    /// An empty list over `storage`.
    pub fn new(storage: S) -> (list: Self)
        requires
            storage.wf(),
        ensures
            list.wf(),
            list@ == Seq::<T>::empty(),
            list.spec_handles() == Seq::<usize>::empty(),
            list.spec_nodes().spec_free_count() == 0,
            list.spec_nodes().spec_slots()@.len() == 0,
            same_footing::<NodeSlot<RawLinkedListNode<T>>, S>(
                storage,
                list.spec_nodes().spec_slots().spec_storage(),
            ),
    {
        let nodes = RawLinkedListNodeStorage::new(storage);
        proof {
            lemma_linked_empty(nodes);
        }
        RawLinkedList { nodes, head: None, tail: None, len: 0, handles: Ghost(Seq::empty()) }
    }

    /// The number of elements.
    pub fn len(&self) -> (len: usize)
        requires
            self.wf(),
        ensures
            len == self@.len(),
    {
        self.len
    }

    /// Whether the list holds no element.
    pub fn is_empty(&self) -> (empty: bool)
        requires
            self.wf(),
        ensures
            empty == (self@.len() == 0),
    {
        self.len == 0
    }

    /// Appends `value` in a node of its own and hands out the handle of
    /// that node. The nodes that were there keep their handles. On failure
    /// the list is left as it was and `value` is dropped.
    ///
    /// A list that holds as many elements as the bound of its storage
    /// allows is not to be pushed to.
    pub fn push_back(&mut self, value: T) -> (result: Result<usize, StorageError>)
        requires
            old(self).wf(),
            old(self)@.len() < old(self).spec_max_len(),
        ensures
            final(self).wf(),
            RawLinkedListNodeStorage::<RawLinkedListNode<T>, S>::room_made(
                old(self).spec_nodes(),
                final(self).spec_nodes(),
                result,
            ),
            match result {
                Ok(handle) => {
                    &&& !old(self).spec_handles().contains(handle)
                    &&& final(self).spec_handles() == old(self).spec_handles().push(handle)
                    &&& final(self)@ == old(self)@.push(value)
                },
                Err(_) => {
                    &&& final(self).spec_handles() == old(self).spec_handles()
                    &&& final(self)@ == old(self)@
                },
            },
    {
        let ghost before = self.handles@;
        let node = RawLinkedListNode { value, prev: self.tail, next: None };
        let handle = match self.nodes.allocate(node) {
            Ok(handle) => handle,
            Err(error) => {
                proof {
                    lemma_linked_same(old(self).nodes, self.nodes, before);
                }
                return Err(error);
            },
        };
        let ghost allocated = self.nodes;
        match self.tail {
            Some(last) => {
                proof {
                    lemma_linked_at(old(self).nodes, before, before.len() - 1);
                    assert(allocated.is_live(last) == old(self).nodes.is_live(last));
                }
                let last_node = self.nodes.get_mut(last);
                last_node.next = Some(handle);
            },
            None => {
                self.head = Some(handle);
            },
        }
        self.tail = Some(handle);
        proof {
            lemma_linked_push_back(old(self).nodes, allocated, self.nodes, before, handle);
        }
        self.len = self.len + 1;
        self.handles = Ghost(before.push(handle));
        Ok(handle)
    }

    /// Puts `value` before the first element, in a node of its own, and
    /// hands out the handle of that node. The nodes that were there keep
    /// their handles. On failure the list is left as it was and `value` is
    /// dropped.
    ///
    /// A list that holds as many elements as the bound of its storage
    /// allows is not to be pushed to.
    pub fn push_front(&mut self, value: T) -> (result: Result<usize, StorageError>)
        requires
            old(self).wf(),
            old(self)@.len() < old(self).spec_max_len(),
        ensures
            final(self).wf(),
            RawLinkedListNodeStorage::<RawLinkedListNode<T>, S>::room_made(
                old(self).spec_nodes(),
                final(self).spec_nodes(),
                result,
            ),
            match result {
                Ok(handle) => {
                    &&& !old(self).spec_handles().contains(handle)
                    &&& final(self).spec_handles() == seq![handle] + old(self).spec_handles()
                    &&& final(self)@ == seq![value] + old(self)@
                },
                Err(_) => {
                    &&& final(self).spec_handles() == old(self).spec_handles()
                    &&& final(self)@ == old(self)@
                },
            },
    {
        let ghost before = self.handles@;
        let node = RawLinkedListNode { value, prev: None, next: self.head };
        let handle = match self.nodes.allocate(node) {
            Ok(handle) => handle,
            Err(error) => {
                proof {
                    lemma_linked_same(old(self).nodes, self.nodes, before);
                }
                return Err(error);
            },
        };
        let ghost allocated = self.nodes;
        match self.head {
            Some(first) => {
                proof {
                    lemma_linked_at(old(self).nodes, before, 0);
                    assert(allocated.is_live(first) == old(self).nodes.is_live(first));
                }
                let first_node = self.nodes.get_mut(first);
                first_node.prev = Some(handle);
            },
            None => {
                self.tail = Some(handle);
            },
        }
        self.head = Some(handle);
        proof {
            lemma_linked_push_front(old(self).nodes, allocated, self.nodes, before, handle);
        }
        self.len = self.len + 1;
        self.handles = Ghost(seq![handle] + before);
        Ok(handle)
    }

    /// Takes the node that `handle` names out of the list, frees it and
    /// hands out its value. Every other node keeps its handle and its
    /// value, and the neighbours of the node are linked to each other.
    pub fn remove(&mut self, handle: usize) -> (value: T)
        requires
            old(self).wf(),
            old(self).spec_handles().contains(handle),
        ensures
            final(self).wf(),
            value == old(self).spec_value(handle),
            value == old(self)@[old(self).spec_handles().index_of(handle)],
            final(self).spec_handles() == old(self).spec_handles().remove(
                old(self).spec_handles().index_of(handle),
            ),
            final(self)@ == old(self)@.remove(old(self).spec_handles().index_of(handle)),
            forall|kept: usize|
                old(self).spec_handles().contains(kept) && kept != handle ==> {
                    &&& #[trigger] final(self).spec_nodes().is_live(kept)
                    &&& final(self).spec_value(kept) == old(self).spec_value(kept)
                },
            final(self).spec_nodes().spec_free_count() == old(self).spec_nodes().spec_free_count()
                + 1,
            RawLinkedListNodeStorage::<RawLinkedListNode<T>, S>::same_room(
                old(self).spec_nodes(),
                final(self).spec_nodes(),
            ),
    {
        let ghost before = self.handles@;
        let ghost position = before.index_of(handle);
        proof {
            lemma_linked_names(self.nodes, before, handle);
            lemma_neighbours_live(self.nodes, self.nodes, before, position);
        }
        let node = self.nodes.release(handle);
        let ghost released = self.nodes;
        proof {
            lemma_neighbours_live(old(self).nodes, released, before, position);
        }
        match node.prev {
            Some(previous) => {
                let previous_node = self.nodes.get_mut(previous);
                previous_node.next = node.next;
            },
            None => {
                self.head = node.next;
            },
        }
        let ghost relinked = self.nodes;
        match node.next {
            Some(following) => {
                assert(relinked.is_live(following) == released.is_live(following));
                let following_node = self.nodes.get_mut(following);
                following_node.prev = node.prev;
            },
            None => {
                self.tail = node.prev;
            },
        }
        proof {
            lemma_linked_remove(
                old(self).nodes,
                released,
                relinked,
                self.nodes,
                before,
                position,
            );
            lemma_ends_of_shorter(before, position);
        }
        self.len = self.len - 1;
        self.handles = Ghost(before.remove(position));
        node.value
    }

    /// Takes the first element out of the list; `None` where the list is
    /// empty. The other nodes keep their handles.
    pub fn pop_front(&mut self) -> (value: Option<T>)
        requires
            old(self).wf(),
        ensures
            final(self).wf(),
            match value {
                Some(first) => {
                    &&& old(self)@.len() > 0
                    &&& first == old(self)@[0]
                    &&& final(self)@ == old(self)@.drop_first()
                    &&& final(self).spec_handles() == old(self).spec_handles().drop_first()
                    &&& final(self).spec_nodes().spec_free_count()
                        == old(self).spec_nodes().spec_free_count() + 1
                },
                None => {
                    &&& old(self)@.len() == 0
                    &&& final(self)@ == old(self)@
                    &&& final(self).spec_handles() == old(self).spec_handles()
                    &&& final(self).spec_nodes().spec_free_count()
                        == old(self).spec_nodes().spec_free_count()
                },
            },
            RawLinkedListNodeStorage::<RawLinkedListNode<T>, S>::same_room(
                old(self).spec_nodes(),
                final(self).spec_nodes(),
            ),
    {
        match self.head {
            Some(first) => {
                proof {
                    assert(self.handles@[0] == first);
                    lemma_linked_names(self.nodes, self.handles@, first);
                    assert(self.handles@.index_of(first) == 0);
                    assert(self.handles@.remove(0) =~= self.handles@.drop_first());
                    assert(self@.remove(0) =~= self@.drop_first());
                }
                Some(self.remove(first))
            },
            None => None,
        }
    }

    /// Takes the last element out of the list; `None` where the list is
    /// empty. The other nodes keep their handles.
    pub fn pop_back(&mut self) -> (value: Option<T>)
        requires
            old(self).wf(),
        ensures
            final(self).wf(),
            match value {
                Some(last) => {
                    &&& old(self)@.len() > 0
                    &&& last == old(self)@.last()
                    &&& final(self)@ == old(self)@.drop_last()
                    &&& final(self).spec_handles() == old(self).spec_handles().drop_last()
                    &&& final(self).spec_nodes().spec_free_count()
                        == old(self).spec_nodes().spec_free_count() + 1
                },
                None => {
                    &&& old(self)@.len() == 0
                    &&& final(self)@ == old(self)@
                    &&& final(self).spec_handles() == old(self).spec_handles()
                    &&& final(self).spec_nodes().spec_free_count()
                        == old(self).spec_nodes().spec_free_count()
                },
            },
            RawLinkedListNodeStorage::<RawLinkedListNode<T>, S>::same_room(
                old(self).spec_nodes(),
                final(self).spec_nodes(),
            ),
    {
        match self.tail {
            Some(last) => {
                proof {
                    let end = self.handles@.len() - 1;
                    assert(self.handles@[end] == last);
                    lemma_linked_names(self.nodes, self.handles@, last);
                    assert(self.handles@.index_of(last) == end);
                    assert(self.handles@.remove(end) =~= self.handles@.drop_last());
                    assert(self@.remove(end) =~= self@.drop_last());
                }
                Some(self.remove(last))
            },
            None => None,
        }
    }

    /// The handle of the first node; `None` where the list is empty.
    pub fn front(&self) -> (handle: Option<usize>)
        requires
            self.wf(),
        ensures
            handle == self.spec_front(),
            handle == handle_after(self.spec_handles(), -1),
    {
        self.head
    }

    /// The handle of the last node; `None` where the list is empty.
    pub fn back(&self) -> (handle: Option<usize>)
        requires
            self.wf(),
        ensures
            handle == self.spec_back(),
            handle == handle_before(self.spec_handles(), self.spec_handles().len() as int),
    {
        self.tail
    }

    /// The handle of the node after the one that `handle` names; `None`
    /// where that one is the last.
    pub fn next(&self, handle: usize) -> (following: Option<usize>)
        requires
            self.wf(),
            self.spec_handles().contains(handle),
        ensures
            following == self.spec_next(handle),
            following == handle_after(
                self.spec_handles(),
                self.spec_handles().index_of(handle),
            ),
    {
        proof {
            lemma_linked_names(self.nodes, self.handles@, handle);
            lemma_linked_at(self.nodes, self.handles@, self.handles@.index_of(handle));
        }
        self.nodes.get(handle).next
    }

    /// The handle of the node before the one that `handle` names; `None`
    /// where that one is the first.
    pub fn prev(&self, handle: usize) -> (previous: Option<usize>)
        requires
            self.wf(),
            self.spec_handles().contains(handle),
        ensures
            previous == self.spec_prev(handle),
            previous == handle_before(
                self.spec_handles(),
                self.spec_handles().index_of(handle),
            ),
    {
        proof {
            lemma_linked_names(self.nodes, self.handles@, handle);
            lemma_linked_at(self.nodes, self.handles@, self.handles@.index_of(handle));
        }
        self.nodes.get(handle).prev
    }

    /// The value of the node that `handle` names.
    pub fn get(&self, handle: usize) -> (value: &T)
        requires
            self.wf(),
            self.spec_handles().contains(handle),
        ensures
            *value == self.spec_value(handle),
            *value == self@[self.spec_handles().index_of(handle)],
    {
        proof {
            lemma_linked_names(self.nodes, self.handles@, handle);
            lemma_linked_at(self.nodes, self.handles@, self.handles@.index_of(handle));
        }
        &self.nodes.get(handle).value
    }

    /// Gives access to the value of the node that `handle` names, to change
    /// it in place. The handles, the links and the other values stay as
    /// they are.
    pub fn get_mut(&mut self, handle: usize) -> (value: &mut T)
        requires
            old(self).wf(),
            old(self).spec_handles().contains(handle),
        ensures
            *value == old(self).spec_value(handle),
            final(self).wf(),
            final(self).spec_handles() == old(self).spec_handles(),
            only_value_changed(old(self).spec_nodes(), final(self).spec_nodes(), handle),
            final(self).spec_value(handle) == *final(value),
            final(self)@ == old(self)@.update(
                old(self).spec_handles().index_of(handle),
                *final(value),
            ),
            final(self).spec_nodes().spec_free_count() == old(self).spec_nodes().spec_free_count(),
            RawLinkedListNodeStorage::<RawLinkedListNode<T>, S>::same_room(
                old(self).spec_nodes(),
                final(self).spec_nodes(),
            ),
    {
        let ghost before = self.nodes;
        let ghost handles = self.handles@;
        let ghost position = handles.index_of(handle);
        proof {
            lemma_linked_names(before, handles, handle);
            lemma_linked_at(before, handles, position);
            assert forall|after: RawLinkedListNodeStorage<RawLinkedListNode<T>, S>|
                only_value_changed(before, after, handle) implies #[trigger] linked(
                after,
                handles,
            ) by {
                lemma_linked_value_changed(before, after, handles, position);
            }
            assert forall|after: RawLinkedListNodeStorage<RawLinkedListNode<T>, S>|
                only_value_changed(before, after, handle) implies #[trigger] values(
                after,
                handles,
            ) == values(before, handles).update(position, after.node(handle).value) by {
                lemma_linked_value_changed(before, after, handles, position);
            }
        }
        let node = self.nodes.get_mut(handle);
        &mut node.value
    }

    /// The storage behind the nodes.
    pub fn storage(&self) -> (storage: &S)
        ensures
            *storage == self.spec_nodes().spec_slots().spec_storage(),
    {
        self.nodes.storage()
    }

    /// Copies of the elements, from the first to the last, found by
    /// following the links from node to node.
    pub fn to_vec(&self) -> (elements: Vec<T>) where T: Copy
        requires
            self.wf(),
        ensures
            elements@ == self@,
    {
        let mut elements: Vec<T> = Vec::new();
        let mut cursor = self.head;
        let mut visited: usize = 0;
        while visited < self.len
            invariant
                self.wf(),
                visited <= self.len,
                cursor == handle_after(self.handles@, visited - 1),
                elements@ == self@.subrange(0, visited as int),
            decreases self.len - visited,
        {
            let handle = match cursor {
                Some(handle) => handle,
                None => vstd::pervasive::unreached(),
            };
            proof {
                lemma_linked_at(self.nodes, self.handles@, visited as int);
            }
            let node = self.nodes.get(handle);
            elements.push(node.value);
            cursor = node.next;
            visited += 1;
            proof {
                assert(elements@ =~= self@.subrange(0, visited as int));
            }
        }
        proof {
            assert(self@.subrange(0, visited as int) =~= self@);
        }
        elements
    }
}

} // verus!
