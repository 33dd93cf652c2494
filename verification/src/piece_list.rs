//! The piece arena: a doubly linked list of pieces kept in a vector, linked by
//! index, whose removed slots are recycled through a free list.

use vstd::prelude::*;
use crate::piece::{Piece, PieceSource};

verus! {

/// The index that stands for "no neighbour".
pub const SENTINEL: usize = usize::MAX;

/// One slot of the arena.
#[derive(Clone, Copy, Debug)]
struct Node {
    val: Piece,
    next: usize,
    prev: usize,
}

/// An ordered list of pieces with constant-time insertion and removal at a
/// known slot.
pub struct PieceList {
    memory: Vec<Node>,
    head: usize,
    tail: usize,
    free: usize,
    /// The linked slots, from head to tail.
    order: Ghost<Seq<usize>>,
    /// The recycled slots, in the order in which they will be handed out.
    spare: Ghost<Seq<usize>>,
}

/// The slots of an arena as plain values: the slots that hold the pieces, in
/// list order; the free slots, the next to be reused first; and the number of
/// slots that the arena has.
pub struct Slots {
    pub order: Seq<usize>,
    pub spare: Seq<usize>,
    pub capacity: nat,
}

impl Slots {
    /// The slots after a piece has been linked at place `place` of the list:
    /// it has taken the first free slot, or, where none was free, a new slot
    /// at the end of the arena.
    pub open spec fn link(self, place: int) -> Slots {
        if self.spare.len() > 0 {
            Slots {
                order: self.order.insert(place, self.spare[0]),
                spare: self.spare.drop_first(),
                capacity: self.capacity,
            }
        } else {
            Slots {
                order: self.order.insert(place, self.capacity as usize),
                spare: self.spare,
                capacity: self.capacity + 1,
            }
        }
    }

    /// The slots after a piece has been linked at place `place`, if `wanted`
    /// says so, and the slots as they are otherwise.
    pub open spec fn link_if(self, place: int, wanted: bool) -> Slots {
        if wanted {
            self.link(place)
        } else {
            self
        }
    }

    /// The slots after the piece at place `place` of the list has been
    /// unlinked: its slot has become the first free slot.
    pub open spec fn unlink(self, place: int) -> Slots {
        Slots {
            order: self.order.remove(place),
            spare: seq![self.order[place]] + self.spare,
            capacity: self.capacity,
        }
    }

    /// The slots after the piece at place `k` has been unlinked and up to
    /// three pieces have been linked in its place, one after the other,
    /// namely those of which `first`, `second` and `third` say so.
    pub open spec fn replace(self, k: int, first: bool, second: bool, third: bool) -> Slots {
        let one = if first {
            1int
        } else {
            0int
        };
        let two = if second {
            one + 1
        } else {
            one
        };
        self.unlink(k).link_if(k, first).link_if(k + one, second).link_if(k + two, third)
    }
}

/// The pieces held in the slots `order`, in that order.
spec fn pieces_of(memory: Seq<Node>, order: Seq<usize>) -> Seq<Piece> {
    Seq::new(order.len(), |i: int| memory[order[i] as int].val)
}

/// The slot after place `i` of `order`, or the sentinel at its end.
spec fn after(order: Seq<usize>, i: int) -> usize {
    if 0 <= i + 1 < order.len() {
        order[i + 1]
    } else {
        SENTINEL
    }
}

/// The slot before place `i` of `order`, or the sentinel at its start.
spec fn before(order: Seq<usize>, i: int) -> usize {
    if 0 < i <= order.len() {
        order[i - 1]
    } else {
        SENTINEL
    }
}

/// Every slot below `capacity` occurs exactly once, in `order` or in `spare`.
spec fn slots_partitioned(capacity: nat, order: Seq<usize>, spare: Seq<usize>) -> bool {
    &&& order.no_duplicates()
    &&& spare.no_duplicates()
    &&& forall|i: int| 0 <= i < order.len() ==> #[trigger] order[i] < capacity
    &&& forall|j: int| 0 <= j < spare.len() ==> #[trigger] spare[j] < capacity
    &&& forall|i: int| 0 <= i < order.len() ==> !spare.contains(#[trigger] order[i])
    &&& order.len() + spare.len() == capacity
}

/// The node in the slot at place `i` of `order` points at its two neighbours
/// in `order` and holds a piece that is not empty.
spec fn link_ok(memory: Seq<Node>, order: Seq<usize>, i: int) -> bool {
    &&& memory[order[i] as int].next == after(order, i)
    &&& memory[order[i] as int].prev == before(order, i)
    &&& memory[order[i] as int].val.length > 0
}

/// The links of the linked slots spell out `order`, forwards and backwards.
spec fn links_follow(memory: Seq<Node>, head: usize, tail: usize, order: Seq<usize>) -> bool {
    &&& head == after(order, -1)
    &&& tail == before(order, order.len() as int)
    &&& forall|i: int| 0 <= i < order.len() ==> #[trigger] link_ok(memory, order, i)
}

/// The node in the free slot at place `j` of `spare` points at the next one.
spec fn chain_ok(memory: Seq<Node>, spare: Seq<usize>, j: int) -> bool {
    memory[spare[j] as int].next == after(spare, j)
}

/// The `next` links of the free slots spell out `spare`.
spec fn chain_follows(memory: Seq<Node>, free: usize, spare: Seq<usize>) -> bool {
    &&& free == after(spare, -1)
    &&& forall|j: int| 0 <= j < spare.len() ==> #[trigger] chain_ok(memory, spare, j)
}

/// What stands at place `i` after an insertion at place `k`.
proof fn lemma_inserted_at(order: Seq<usize>, k: int, slot: usize, i: int)
    requires
        0 <= k <= order.len(),
    ensures
        order.insert(k, slot).len() == order.len() + 1,
        0 <= i < k ==> order.insert(k, slot)[i] == order[i],
        i == k ==> order.insert(k, slot)[i] == slot,
        k < i <= order.len() ==> order.insert(k, slot)[i] == order[i - 1],
{
}

/// What stands at place `i` after the removal of place `k`.
proof fn lemma_removed_at(order: Seq<usize>, k: int, i: int)
    requires
        0 <= k < order.len(),
    ensures
        order.remove(k).len() == order.len() - 1,
        0 <= i < k ==> order.remove(k)[i] == order[i],
        k <= i < order.len() - 1 ==> order.remove(k)[i] == order[i + 1],
{
}

/// The whole invariant, over the plain values that make up an arena.
spec fn arena_ok(
    memory: Seq<Node>,
    head: usize,
    tail: usize,
    free: usize,
    order: Seq<usize>,
    spare: Seq<usize>,
) -> bool {
    &&& memory.len() <= usize::MAX
    &&& slots_partitioned(memory.len(), order, spare)
    &&& links_follow(memory, head, tail, order)
    &&& chain_follows(memory, free, spare)
}

/// The free slots that are left once the first of them, if there is one, has
/// been handed out.
spec fn rest_of(spare: Seq<usize>) -> Seq<usize> {
    if spare.len() > 0 {
        spare.drop_first()
    } else {
        spare
    }
}

/// What the neighbours of a node newly linked at place `k` look like once
/// they point at it, and that every other node is as it was.
spec fn linked_in(memory: Seq<Node>, changed: Seq<Node>, order: Seq<usize>, k: int, slot: usize) -> bool {
    &&& changed[slot as int].next == after(order, k - 1)
    &&& changed[slot as int].prev == before(order, k)
    &&& changed[slot as int].val.length > 0
    &&& forall|x: int|
        0 <= x < memory.len() && x != slot ==> {
            &&& (#[trigger] changed[x]).val == memory[x].val
            &&& changed[x].next == if x == before(order, k) {
                slot
            } else {
                memory[x].next
            }
            &&& changed[x].prev == if x == after(order, k - 1) {
                slot
            } else {
                memory[x].prev
            }
        }
}

/// The slot that a new node is given: the head of the free list, or a new
/// slot at the end of the memory.
spec fn slot_given(memory: Seq<Node>, changed: Seq<Node>, spare: Seq<usize>, slot: usize) -> bool {
    &&& changed.len() <= usize::MAX
    &&& spare.len() > 0 ==> slot == spare[0] && changed.len() == memory.len()
    &&& spare.len() == 0 ==> slot == memory.len() && changed.len() == memory.len() + 1
}

/// After a slot has been linked at place `k`, the linked slots are linked
/// correctly and are slots of the memory.
proof fn lemma_link_list(
    memory: Seq<Node>,
    head: usize,
    tail: usize,
    free: usize,
    order: Seq<usize>,
    spare: Seq<usize>,
    changed: Seq<Node>,
    k: int,
    slot: usize,
)
    requires
        arena_ok(memory, head, tail, free, order, spare),
        0 <= k <= order.len(),
        slot_given(memory, changed, spare, slot),
        linked_in(memory, changed, order, k, slot),
    ensures
        !order.contains(slot),
        order.insert(k, slot).no_duplicates(),
        links_follow(
            changed,
            if k == 0 { slot } else { head },
            if k == order.len() { slot } else { tail },
            order.insert(k, slot),
        ),
        forall|i: int|
            0 <= i < order.insert(k, slot).len() ==> #[trigger] order.insert(k, slot)[i] < changed.len(),
{
    let grown = order.insert(k, slot);
    lemma_inserted_at(order, k, slot, 0);
    lemma_inserted_at(order, k, slot, order.len() as int);
    assert(!order.contains(slot)) by {
        if order.contains(slot) {
            let i = order.index_of(slot);
            assert(order[i] < memory.len());
            assert(!spare.contains(order[i]));
            assert(spare[0] == slot);
        }
    }
    assert forall|i: int| 0 <= i < grown.len() implies {
        &&& #[trigger] link_ok(changed, grown, i)
        &&& grown[i] < changed.len()
    } by {
        lemma_inserted_at(order, k, slot, i - 1);
        lemma_inserted_at(order, k, slot, i);
        lemma_inserted_at(order, k, slot, i + 1);
        let a = if i < k { i } else { i - 1 };
        if i != k {
            assert(link_ok(memory, order, a));
            assert(order[a] < memory.len());
            assert(order[a] != slot);
            if a != k - 1 && 0 <= k - 1 {
                assert(order[a] != order[k - 1]);
            }
            if a != k && k < order.len() {
                assert(order[a] != order[k]);
            }
        }
    }
    assert forall|i: int, j: int| 0 <= i < grown.len() && 0 <= j < grown.len() && i != j implies grown[i]
        != grown[j] by {
        lemma_inserted_at(order, k, slot, i);
        lemma_inserted_at(order, k, slot, j);
        let a = if i < k { i } else { i - 1 };
        let b = if j < k { j } else { j - 1 };
        if i != k && j != k {
            assert(order[a] != order[b]);
        } else if i != k {
            assert(order[a] != slot);
        } else {
            assert(order[b] != slot);
        }
    }
}

/// After a slot has been linked at place `k`, the free slots are chained
/// correctly, are slots of the memory, and none of them is linked.
proof fn lemma_link_chain(
    memory: Seq<Node>,
    head: usize,
    tail: usize,
    free: usize,
    order: Seq<usize>,
    spare: Seq<usize>,
    changed: Seq<Node>,
    k: int,
    slot: usize,
)
    requires
        arena_ok(memory, head, tail, free, order, spare),
        0 <= k <= order.len(),
        slot_given(memory, changed, spare, slot),
        linked_in(memory, changed, order, k, slot),
    ensures
        rest_of(spare).no_duplicates(),
        chain_follows(changed, if spare.len() > 0 { after(spare, 0) } else { free }, rest_of(spare)),
        forall|j: int| 0 <= j < rest_of(spare).len() ==> #[trigger] rest_of(spare)[j] < changed.len(),
        forall|i: int|
            0 <= i < order.insert(k, slot).len() ==> !rest_of(spare).contains(
                #[trigger] order.insert(k, slot)[i],
            ),
        order.insert(k, slot).len() + rest_of(spare).len() == changed.len(),
{
    let grown = order.insert(k, slot);
    let chain = rest_of(spare);
    lemma_inserted_at(order, k, slot, 0);
    assert forall|j: int| 0 <= j < chain.len() implies {
        &&& #[trigger] chain_ok(changed, chain, j)
        &&& chain[j] < changed.len()
        &&& chain[j] != slot
    } by {
        assert(chain[j] == spare[j + 1]);
        assert(spare[j + 1] != spare[0]);
        assert(chain_ok(memory, spare, j + 1));
        assert(spare[j + 1] < memory.len());
        if 0 <= k - 1 {
            assert(!spare.contains(order[k - 1]));
        }
        if k < order.len() {
            assert(!spare.contains(order[k]));
        }
    }
    assert forall|i: int, j: int| 0 <= i < chain.len() && 0 <= j < chain.len() && i != j implies chain[i]
        != chain[j] by {
        assert(chain[i] == spare[i + 1]);
        assert(chain[j] == spare[j + 1]);
    }
    assert forall|i: int| 0 <= i < grown.len() implies !chain.contains(#[trigger] grown[i]) by {
        lemma_inserted_at(order, k, slot, i);
        if chain.contains(grown[i]) {
            let j = chain.index_of(grown[i]);
            assert(chain[j] == spare[j + 1]);
            if i != k {
                let a = if i < k { i } else { i - 1 };
                assert(!spare.contains(order[a]));
            }
        }
    }
    if spare.len() > 0 {
        assert(chain_ok(memory, spare, 0));
    }
}

/// Linking a slot at place `k` keeps the invariant, be the slot the head of
/// the free list or a new one at the end of the memory, once the new node and
/// its two neighbours point at each other.
proof fn lemma_link(
    memory: Seq<Node>,
    head: usize,
    tail: usize,
    free: usize,
    order: Seq<usize>,
    spare: Seq<usize>,
    changed: Seq<Node>,
    k: int,
    slot: usize,
)
    requires
        arena_ok(memory, head, tail, free, order, spare),
        0 <= k <= order.len(),
        slot_given(memory, changed, spare, slot),
        linked_in(memory, changed, order, k, slot),
    ensures
        !order.contains(slot),
        arena_ok(
            changed,
            if k == 0 { slot } else { head },
            if k == order.len() { slot } else { tail },
            if spare.len() > 0 { after(spare, 0) } else { free },
            order.insert(k, slot),
            rest_of(spare),
        ),
{
    lemma_link_list(memory, head, tail, free, order, spare, changed, k, slot);
    lemma_link_chain(memory, head, tail, free, order, spare, changed, k, slot);
}

/// The pieces of the list after a slot has been linked at place `k`: the
/// piece of the new node has come to stand at place `k` of them.
proof fn lemma_view_linked(
    memory: Seq<Node>,
    changed: Seq<Node>,
    order: Seq<usize>,
    k: int,
    slot: usize,
)
    requires
        0 <= k <= order.len(),
        !order.contains(slot),
        forall|i: int| 0 <= i < order.len() ==> #[trigger] order[i] < memory.len(),
        forall|x: int| 0 <= x < memory.len() && x != slot ==> (#[trigger] changed[x]).val == memory[x].val,
    ensures
        pieces_of(changed, order.insert(k, slot)) == pieces_of(memory, order).insert(
            k,
            changed[slot as int].val,
        ),
{
    let grown = order.insert(k, slot);
    lemma_inserted_at(order, k, slot, 0);
    assert forall|i: int| 0 <= i < grown.len() implies pieces_of(changed, grown)[i] == pieces_of(
        memory,
        order,
    ).insert(k, changed[slot as int].val)[i] by {
        lemma_inserted_at(order, k, slot, i);
        if i != k {
            let a = if i < k { i } else { i - 1 };
            assert(order[a] != slot);
        }
    }
    assert(pieces_of(changed, grown) =~= pieces_of(memory, order).insert(
        k,
        changed[slot as int].val,
    ));
}

/// The pieces of the list after the slot at place `k` has been unlinked.
proof fn lemma_view_unlinked(memory: Seq<Node>, changed: Seq<Node>, order: Seq<usize>, k: int)
    requires
        0 <= k < order.len(),
        order.no_duplicates(),
        forall|i: int| 0 <= i < order.len() ==> #[trigger] order[i] < memory.len(),
        forall|x: int|
            0 <= x < memory.len() && x != order[k] ==> (#[trigger] changed[x]).val == memory[x].val,
    ensures
        pieces_of(changed, order.remove(k)) == pieces_of(memory, order).remove(k),
{
    let shrunk = order.remove(k);
    lemma_removed_at(order, k, 0);
    assert forall|i: int| 0 <= i < shrunk.len() implies pieces_of(changed, shrunk)[i] == pieces_of(
        memory,
        order,
    ).remove(k)[i] by {
        lemma_removed_at(order, k, i);
        let a = if i < k { i } else { i + 1 };
        assert(order[a] != order[k]);
    }
    assert(pieces_of(changed, shrunk) =~= pieces_of(memory, order).remove(k));
}

/// Taking the slot at place `k` out of the list and putting it at the head of
/// the free list keeps the invariant, once its two neighbours point at each
/// other and the slot points at the former head of the free list.
proof fn lemma_unlink(
    memory: Seq<Node>,
    head: usize,
    tail: usize,
    free: usize,
    order: Seq<usize>,
    spare: Seq<usize>,
    changed: Seq<Node>,
    k: int,
)
    requires
        arena_ok(memory, head, tail, free, order, spare),
        0 <= k < order.len(),
        changed.len() == memory.len(),
        changed[order[k] as int].next == free,
        forall|x: int|
            0 <= x < memory.len() && x != order[k] ==> {
                &&& (#[trigger] changed[x]).val == memory[x].val
                &&& changed[x].next == if x == before(order, k) {
                    after(order, k)
                } else {
                    memory[x].next
                }
                &&& changed[x].prev == if x == after(order, k) {
                    before(order, k)
                } else {
                    memory[x].prev
                }
            },
    ensures
        arena_ok(
            changed,
            if k == 0 { after(order, k) } else { head },
            if k == order.len() - 1 { before(order, k) } else { tail },
            order[k],
            order.remove(k),
            seq![order[k]] + spare,
        ),
{
    let shrunk = order.remove(k);
    let chain = seq![order[k]] + spare;
    lemma_removed_at(order, k, 0);
    lemma_removed_at(order, k, order.len() - 2);
    assert forall|i: int| 0 <= i < shrunk.len() implies {
        &&& #[trigger] link_ok(changed, shrunk, i)
        &&& shrunk[i] < changed.len()
        &&& !chain.contains(shrunk[i])
    } by {
        lemma_removed_at(order, k, i - 1);
        lemma_removed_at(order, k, i);
        lemma_removed_at(order, k, i + 1);
        let a = if i < k { i } else { i + 1 };
        assert(link_ok(memory, order, a));
        assert(order[a] < memory.len());
        assert(order[a] != order[k]);
        assert(!spare.contains(order[a]));
        if a != k - 1 && 0 <= k - 1 {
            assert(order[a] != order[k - 1]);
        }
        if a != k + 1 && k + 1 < order.len() {
            assert(order[a] != order[k + 1]);
        }
        if chain.contains(shrunk[i]) {
            let j = chain.index_of(shrunk[i]);
            if j > 0 {
                assert(chain[j] == spare[j - 1]);
            }
        }
    }
    assert forall|i: int, j: int|
        0 <= i < shrunk.len() && 0 <= j < shrunk.len() && i != j implies shrunk[i] != shrunk[j] by {
        lemma_removed_at(order, k, i);
        lemma_removed_at(order, k, j);
        let a = if i < k { i } else { i + 1 };
        let b = if j < k { j } else { j + 1 };
        assert(order[a] != order[b]);
    }
    assert(!spare.contains(order[k]));
    assert forall|j: int| 0 <= j < chain.len() implies {
        &&& #[trigger] chain_ok(changed, chain, j)
        &&& chain[j] < changed.len()
    } by {
        if j > 0 {
            assert(chain[j] == spare[j - 1]);
            assert(chain_ok(memory, spare, j - 1));
            assert(spare[j - 1] < memory.len());
            if 0 <= k - 1 {
                assert(!spare.contains(order[k - 1]));
            }
            if k + 1 < order.len() {
                assert(!spare.contains(order[k + 1]));
            }
        } else {
            assert(order[k] < memory.len());
        }
    }
    assert forall|i: int, j: int| 0 <= i < chain.len() && 0 <= j < chain.len() && i != j implies chain[i]
        != chain[j] by {
        if i > 0 {
            assert(chain[i] == spare[i - 1]);
        }
        if j > 0 {
            assert(chain[j] == spare[j - 1]);
        }
    }
    assert(link_ok(memory, order, k));
}

impl View for PieceList {
    type V = Seq<Piece>;

    /// The pieces in list order.
    closed spec fn view(&self) -> Seq<Piece> {
        pieces_of(self.memory@, self.order@)
    }
}

impl PieceList {
    /// The slots that hold the pieces of the list, in list order.
    pub closed spec fn order(&self) -> Seq<usize> {
        self.order@
    }

    /// The free slots, next to be reused first.
    pub closed spec fn spare(&self) -> Seq<usize> {
        self.spare@
    }

    /// The number of slots the arena has ever allocated.
    pub closed spec fn capacity(&self) -> nat {
        self.memory@.len()
    }

    /// The slots of the arena.
    pub open spec fn slots(&self) -> Slots {
        Slots { order: self.order(), spare: self.spare(), capacity: self.capacity() }
    }

    /// `slot` currently holds a piece of the list.
    pub open spec fn linked(&self, slot: usize) -> bool {
        self.order().contains(slot)
    }

    /// The place of a linked slot in list order.
    pub open spec fn position(&self, slot: usize) -> int {
        self.order().index_of(slot)
    }

    /// The slot at place `i` of the list, or the sentinel past either end.
    pub open spec fn slot_at(&self, i: int) -> usize {
        if 0 <= i < self.order().len() {
            self.order()[i]
        } else {
            SENTINEL
        }
    }

    /// The place at which a piece inserted before `pivot` comes to stand: the
    /// place of `pivot`, or the end of the list for the sentinel.
    pub open spec fn place_before(&self, pivot: usize) -> int {
        if pivot == SENTINEL {
            self.order().len() as int
        } else {
            self.position(pivot)
        }
    }

    /// The structural invariant of the arena: every slot is either linked or
    /// free and never both, the links of the linked slots run through them in
    /// list order in both directions, the free slots are chained through
    /// their `next` links, and no linked piece is empty.
    pub closed spec fn wf(&self) -> bool {
        arena_ok(self.memory@, self.head, self.tail, self.free, self.order@, self.spare@)
    }

    /// An arena that holds the single piece `val`.
    pub fn new(val: Piece) -> (list: PieceList)
        requires
            val.length > 0,
        ensures
            list.wf(),
            list@ == seq![val],
            list.order() == seq![0usize],
            list.spare() == Seq::<usize>::empty(),
            list.capacity() == 1,
    {
        let node = Node { val, next: SENTINEL, prev: SENTINEL };
        let order: Ghost<Seq<usize>> = Ghost(Seq::empty().push(0usize));
        let spare: Ghost<Seq<usize>> = Ghost(Seq::empty());
        let list = PieceList { memory: vec![node], head: 0, tail: 0, free: SENTINEL, order, spare };
        assert(list@ =~= seq![val]);
        list
    }

    /// An arena with no piece in it and no slot allocated.
    pub fn empty() -> (list: PieceList)
        ensures
            list.wf(),
            list@ == Seq::<Piece>::empty(),
            list.order() == Seq::<usize>::empty(),
            list.spare() == Seq::<usize>::empty(),
            list.capacity() == 0,
    {
        let order: Ghost<Seq<usize>> = Ghost(Seq::empty());
        let spare: Ghost<Seq<usize>> = Ghost(Seq::empty());
        let list = PieceList {
            memory: Vec::new(),
            head: SENTINEL,
            tail: SENTINEL,
            free: SENTINEL,
            order,
            spare,
        };
        assert(list@ =~= Seq::<Piece>::empty());
        list
    }

    /// In a well-formed arena the view has one piece for each linked slot, no
    /// piece is empty, no slot is linked twice or both linked and free, and
    /// the sentinel is no slot.
    pub proof fn lemma_wf_facts(&self)
        requires
            self.wf(),
        ensures
            self@.len() == self.order().len(),
            self.order().no_duplicates(),
            self.spare().no_duplicates(),
            self.order().len() + self.spare().len() == self.capacity(),
            forall|i: int| 0 <= i < self@.len() ==> (#[trigger] self@[i]).length > 0,
            forall|i: int| 0 <= i < self.order().len() ==> #[trigger] self.order()[i] < self.capacity(),
            forall|i: int| 0 <= i < self.order().len() ==> #[trigger] self.order()[i] != SENTINEL,
            forall|i: int|
                0 <= i < self.order().len() ==> !self.spare().contains(#[trigger] self.order()[i]),
            !self.linked(SENTINEL),
    {
        assert forall|i: int| 0 <= i < self@.len() implies (#[trigger] self@[i]).length > 0 by {
            assert(link_ok(self.memory@, self.order@, i));
        }
    }

    /// The slot at place `k` is linked, and `k` is its position.
    pub proof fn lemma_position(&self, k: int)
        requires
            self.wf(),
            0 <= k < self.order().len(),
        ensures
            self.linked(self.order()[k]),
            self.position(self.order()[k]) == k,
            self.slot_at(k) == self.order()[k],
            self.place_before(self.order()[k]) == k,
    {
        self.lemma_wf_facts();
        let slot = self.order()[k];
        let found = self.order().index_of(slot);
        assert(self.order()[found] == slot);
    }

    /// The links agree in both directions: the slot that follows `slot`, if
    /// there is one, is linked and preceded by `slot`, and the slot that
    /// precedes `slot`, if there is one, is linked and followed by `slot`.
    pub proof fn lemma_neighbours(&self, slot: usize)
        requires
            self.wf(),
            self.linked(slot),
        ensures
            ({
                let following = self.slot_at(self.position(slot) + 1);
                following != SENTINEL ==> self.linked(following) && self.slot_at(
                    self.position(following) - 1,
                ) == slot
            }),
            ({
                let preceding = self.slot_at(self.position(slot) - 1);
                preceding != SENTINEL ==> self.linked(preceding) && self.slot_at(
                    self.position(preceding) + 1,
                ) == slot
            }),
    {
        self.lemma_wf_facts();
        let k = self.position(slot);
        if k + 1 < self.order().len() {
            self.lemma_position(k + 1);
        }
        if k > 0 {
            self.lemma_position(k - 1);
        }
    }

    /// The slot of the first piece, or the sentinel when the list is empty.
    pub fn first(&self) -> (slot: usize)
        requires
            self.wf(),
        ensures
            slot == self.slot_at(0),
    {
        self.head
    }

    /// The slot of the last piece, or the sentinel when the list is empty.
    pub fn last(&self) -> (slot: usize)
        requires
            self.wf(),
        ensures
            slot == self.slot_at(self@.len() - 1),
    {
        self.tail
    }

    /// The slot that follows `slot` in the list, or the sentinel after the
    /// last piece.
    pub fn next(&self, slot: usize) -> (following: usize)
        requires
            self.wf(),
            self.linked(slot),
        ensures
            following == self.slot_at(self.position(slot) + 1),
    {
        assert(link_ok(self.memory@, self.order@, self.position(slot)));
        self.memory[slot].next
    }

    /// The slot that precedes `slot` in the list, or the sentinel before the
    /// first piece.
    pub fn prev(&self, slot: usize) -> (preceding: usize)
        requires
            self.wf(),
            self.linked(slot),
        ensures
            preceding == self.slot_at(self.position(slot) - 1),
    {
        assert(link_ok(self.memory@, self.order@, self.position(slot)));
        self.memory[slot].prev
    }

    /// The piece held in a linked slot.
    pub fn piece(&self, slot: usize) -> (piece: Piece)
        requires
            self.wf(),
            self.linked(slot),
        ensures
            piece == self@[self.position(slot)],
    {
        self.memory[slot].val
    }

    /// Links a new piece in front of the piece in slot `pivot`, or behind the
    /// last piece when `pivot` is the sentinel, and returns the slot it was
    /// given. A free slot is reused if there is one; only otherwise does the
    /// arena grow.
    pub fn insert_before(
        &mut self,
        pivot: usize,
        start: usize,
        length: usize,
        source: PieceSource,
    ) -> (slot: usize)
        requires
            old(self).wf(),
            length > 0,
            pivot == SENTINEL || old(self).linked(pivot),
        ensures
            final(self).wf(),
            final(self).order() == old(self).order().insert(old(self).place_before(pivot), slot),
            final(self)@ == old(self)@.insert(
                old(self).place_before(pivot),
                (Piece { start, length, source }),
            ),
            final(self).slots() == old(self).slots().link(old(self).place_before(pivot)),
            !old(self).linked(slot),
            pivot == SENTINEL || final(self).linked(pivot),
            final(self).place_before(pivot) == old(self).place_before(pivot) + 1,
            old(self).spare().len() > 0 ==> {
                &&& slot == old(self).spare()[0]
                &&& final(self).spare() == old(self).spare().drop_first()
                &&& final(self).capacity() == old(self).capacity()
            },
            old(self).spare().len() == 0 ==> {
                &&& slot == old(self).capacity()
                &&& final(self).spare() == old(self).spare()
                &&& final(self).capacity() == old(self).capacity() + 1
            },
    {
        proof {
            self.lemma_wf_facts();
        }
        let ghost k = self.place_before(pivot);
        let ghost order = self.order@;
        let ghost spare = self.spare@;
        let ghost memory = self.memory@;
        let ghost head = self.head;
        let ghost tail = self.tail;
        let ghost free = self.free;
        let preceding: usize = if pivot == SENTINEL {
            self.tail
        } else {
            assert(link_ok(memory, order, k));
            self.memory[pivot].prev
        };
        let node = Node { val: Piece { start, length, source }, next: pivot, prev: preceding };
        let slot: usize;
        if self.free != SENTINEL {
            slot = self.free;
            assert(chain_ok(memory, spare, 0));
            self.free = self.memory[slot].next;
            self.memory.set(slot, node);
            self.spare = Ghost(spare.drop_first());
        } else {
            slot = self.memory.len();
            self.memory.push(node);
        }
        assert(forall|i: int| 0 <= i < order.len() ==> #[trigger] order[i] != slot);
        if preceding != SENTINEL {
            let mut neighbour = self.memory[preceding];
            neighbour.next = slot;
            self.memory.set(preceding, neighbour);
        } else {
            self.head = slot;
        }
        if pivot != SENTINEL {
            let mut neighbour = self.memory[pivot];
            neighbour.prev = slot;
            self.memory.set(pivot, neighbour);
        } else {
            self.tail = slot;
        }
        self.order = Ghost(order.insert(k, slot));
        proof {
            assert(self.memory@.len() == self.memory.len());
            lemma_link(memory, head, tail, free, order, spare, self.memory@, k, slot);
            lemma_view_linked(memory, self.memory@, order, k, slot);
            lemma_inserted_at(order, k, slot, k + 1);
            if pivot != SENTINEL {
                self.lemma_position(k + 1);
            }
        }
        slot
    }

    /// Unlinks the piece in slot `node`, puts the slot at the head of the
    /// free list, and returns the piece it held.
    pub fn remove(&mut self, node: usize) -> (piece: Piece)
        requires
            old(self).wf(),
            old(self).linked(node),
        ensures
            final(self).wf(),
            piece == old(self)@[old(self).position(node)],
            final(self).order() == old(self).order().remove(old(self).position(node)),
            final(self)@ == old(self)@.remove(old(self).position(node)),
            final(self).spare() == seq![node] + old(self).spare(),
            final(self).capacity() == old(self).capacity(),
            final(self).slots() == old(self).slots().unlink(old(self).position(node)),
            ({
                let follower = old(self).slot_at(old(self).position(node) + 1);
                &&& follower == SENTINEL || final(self).linked(follower)
                &&& final(self).place_before(follower) == old(self).position(node)
            }),
    {
        proof {
            self.lemma_wf_facts();
        }
        let ghost k = self.position(node);
        let ghost order = self.order@;
        let ghost spare = self.spare@;
        let ghost memory = self.memory@;
        let ghost head = self.head;
        let ghost tail = self.tail;
        let ghost free = self.free;
        assert(link_ok(memory, order, k));
        let removed = self.memory[node];
        let preceding: usize = removed.prev;
        let following: usize = removed.next;
        if preceding != SENTINEL {
            let mut neighbour = self.memory[preceding];
            neighbour.next = following;
            self.memory.set(preceding, neighbour);
        } else {
            self.head = following;
        }
        if following != SENTINEL {
            let mut neighbour = self.memory[following];
            neighbour.prev = preceding;
            self.memory.set(following, neighbour);
        } else {
            self.tail = preceding;
        }
        let mut recycled = self.memory[node];
        recycled.next = self.free;
        self.memory.set(node, recycled);
        self.free = node;
        self.order = Ghost(order.remove(k));
        self.spare = Ghost(seq![node] + spare);
        proof {
            lemma_unlink(memory, head, tail, free, order, spare, self.memory@, k);
            lemma_view_unlinked(memory, self.memory@, order, k);
            lemma_removed_at(order, k, k);
            if k + 1 < order.len() {
                self.lemma_position(k);
            }
        }
        removed.val
    }

    /// A walk over the pieces from the first to the last.
    pub fn iter(&self) -> (walk: PieceIterator<'_>)
        requires
            self.wf(),
        ensures
            walk.wf(),
            walk.remaining() == self@,
    {
        let walk = PieceIterator { list: self, idx: self.head, place: Ghost(0) };
        assert(walk.remaining() =~= self@);
        walk
    }
}

/// A walk over the pieces of a list in list order. It is no `Iterator`: call
/// `next` until it returns `None`.
pub struct PieceIterator<'list> {
    list: &'list PieceList,
    /// Slot of the next piece.
    idx: usize,
    /// How many pieces the walk has handed out.
    place: Ghost<int>,
}

impl<'list> PieceIterator<'list> {
    /// The walk stands at a place of a well-formed list.
    pub closed spec fn wf(&self) -> bool {
        &&& self.list.wf()
        &&& 0 <= self.place@ <= self.list.order().len()
        &&& self.idx == self.list.slot_at(self.place@)
    }

    /// The pieces that the walk has yet to hand out.
    pub closed spec fn remaining(&self) -> Seq<Piece> {
        self.list@.skip(self.place@)
    }

    /// Hands out the next piece, or `None` once the last one has been.
    pub fn next(&mut self) -> (item: Option<&'list Piece>)
        requires
            old(self).wf(),
        ensures
            final(self).wf(),
            match item {
                Some(piece) => {
                    &&& old(self).remaining().len() > 0
                    &&& *piece == old(self).remaining()[0]
                    &&& final(self).remaining() == old(self).remaining().drop_first()
                },
                None => {
                    &&& old(self).remaining().len() == 0
                    &&& final(self).remaining() == old(self).remaining()
                },
            },
    {
        proof {
            self.list.lemma_wf_facts();
        }
        if self.idx == SENTINEL {
            None
        } else {
            let list: &'list PieceList = self.list;
            assert(link_ok(list.memory@, list.order@, self.place@));
            let node = &list.memory[self.idx];
            self.idx = node.next;
            self.place = Ghost(self.place@ + 1);
            assert(self.remaining() =~= old(self).remaining().drop_first());
            Some(&node.val)
        }
    }
}

} // verus!
