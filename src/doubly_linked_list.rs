//! A doubly linked list whose nodes live in an arena (`Vec`) and refer to their
//! neighbours by slot index. Removing a node moves the arena's last node into the
//! freed slot, so the arena always holds exactly the list's nodes.

use vstd::prelude::*;
use crate::render::Render;

verus! {

/// One element of the list, with the slots of its neighbours.
struct ListNode<T> {
    next: Option<usize>,
    prev: Option<usize>,
    data: T,
}

impl<T> ListNode<T> {
    fn new(data: T) -> (r: ListNode<T>)
        ensures
            r.data == data,
            r.next is None,
            r.prev is None,
    {
        ListNode { data, next: None, prev: None }
    }
}

/// The error of a position past the end of the list.
#[derive(Debug, PartialEq, Eq, Structural)]
pub enum ListError {
    IndexOutOfBounds,
}

/// A generic doubly linked sequence.
pub struct DoublyLinkedList<T> {
    nodes: Vec<ListNode<T>>,
    head: Option<usize>,
    tail: Option<usize>,
    length: usize,
    /// The slot of each element, in list order.
    slots: Ghost<Seq<usize>>,
}

/// The slot that follows position `i` in `slots`, if any.
spec fn next_slot(slots: Seq<usize>, i: int) -> Option<usize> {
    if i + 1 < slots.len() {
        Some(slots[i + 1])
    } else {
        None
    }
}

/// The slot that precedes position `i` in `slots`, if any.
spec fn prev_slot(slots: Seq<usize>, i: int) -> Option<usize> {
    if i > 0 {
        Some(slots[i - 1])
    } else {
        None
    }
}

/// The first slot of `slots`, if any.
spec fn first_slot(slots: Seq<usize>) -> Option<usize> {
    if slots.len() > 0 {
        Some(slots[0])
    } else {
        None
    }
}

/// The last slot of `slots`, if any.
spec fn last_slot(slots: Seq<usize>) -> Option<usize> {
    if slots.len() > 0 {
        Some(slots.last())
    } else {
        None
    }
}

/// The nodes at `slots`, followed forwards from `head` or backwards from `tail`,
/// visit exactly the positions of `slots` in order: the links are symmetric.
spec fn linked<T>(
    nodes: Seq<ListNode<T>>,
    slots: Seq<usize>,
    head: Option<usize>,
    tail: Option<usize>,
) -> bool {
    &&& head == first_slot(slots)
    &&& tail == last_slot(slots)
    &&& forall|i: int|
        0 <= i < slots.len() ==> (#[trigger] nodes[slots[i] as int]).next == next_slot(slots, i)
    &&& forall|i: int|
        0 <= i < slots.len() ==> (#[trigger] nodes[slots[i] as int]).prev == prev_slot(slots, i)
}

/// Slot `s` is at some position of `slots`.
spec fn has_slot(slots: Seq<usize>, s: int) -> bool {
    exists|i: int| 0 <= i < slots.len() && slots[i] == s
}

/// `slots` lists every slot below `n` exactly once.
spec fn permutes(slots: Seq<usize>, n: int) -> bool {
    &&& slots.len() == n
    &&& forall|i: int| 0 <= i < slots.len() ==> #[trigger] slots[i] < n
    &&& forall|i: int, j: int|
        0 <= i < slots.len() && 0 <= j < slots.len() && i != j ==> slots[i] != slots[j]
    &&& forall|s: int| 0 <= s < n ==> #[trigger] has_slot(slots, s)
}

/// The elements at `slots`, in order.
spec fn values<T>(nodes: Seq<ListNode<T>>, slots: Seq<usize>) -> Seq<T> {
    Seq::new(slots.len(), |i: int| nodes[slots[i] as int].data)
}

/// `o` names slot `x`.
spec fn names(o: Option<usize>, x: int) -> bool {
    match o {
        Some(p) => p as int == x,
        None => false,
    }
}

/// `new` is `old` with the `next` link of the node at `at_next` set to `next_val` and
/// the `prev` link of the node at `at_prev` set to `prev_val`; nothing else differs.
spec fn relinked<T>(
    old: Seq<ListNode<T>>,
    new: Seq<ListNode<T>>,
    at_next: Option<usize>,
    next_val: Option<usize>,
    at_prev: Option<usize>,
    prev_val: Option<usize>,
) -> bool {
    &&& new.len() == old.len()
    &&& forall|x: int|
        0 <= x < old.len() ==> {
            &&& (#[trigger] new[x]).data == old[x].data
            &&& new[x].next == if names(at_next, x) { next_val } else { old[x].next }
            &&& new[x].prev == if names(at_prev, x) { prev_val } else { old[x].prev }
        }
}

/// Linking the neighbours of position `pos` to each other leaves the other positions
/// linked in order.
proof fn lemma_splice<T>(
    nodes0: Seq<ListNode<T>>,
    slots0: Seq<usize>,
    head0: Option<usize>,
    tail0: Option<usize>,
    nodes1: Seq<ListNode<T>>,
    head1: Option<usize>,
    tail1: Option<usize>,
    pos: int,
)
    requires
        permutes(slots0, nodes0.len() as int),
        linked(nodes0, slots0, head0, tail0),
        0 <= pos < slots0.len(),
        relinked(
            nodes0,
            nodes1,
            prev_slot(slots0, pos),
            next_slot(slots0, pos),
            next_slot(slots0, pos),
            prev_slot(slots0, pos),
        ),
        head1 == (if pos == 0 { next_slot(slots0, pos) } else { head0 }),
        tail1 == (if pos == slots0.len() - 1 { prev_slot(slots0, pos) } else { tail0 }),
    ensures
        linked(nodes1, slots0.remove(pos), head1, tail1),
        values(nodes1, slots0.remove(pos)) == values(nodes0, slots0).remove(pos),
        forall|i: int| 0 <= i < slots0.len() - 1 ==> #[trigger] slots0.remove(pos)[i] != slots0[pos],
{
    let slots1 = slots0.remove(pos);
    assert forall|i: int| 0 <= i < slots1.len() implies (#[trigger] nodes1[slots1[i] as int]).next
        == next_slot(slots1, i) && nodes1[slots1[i] as int].prev == prev_slot(slots1, i)
        && slots1[i] != slots0[pos] by {
        if i < pos {
            assert(slots1[i] == slots0[i]);
            assert(nodes0[slots0[i] as int].next == next_slot(slots0, i));
            assert(nodes0[slots0[i] as int].prev == prev_slot(slots0, i));
        } else {
            assert(slots1[i] == slots0[i + 1]);
            assert(nodes0[slots0[i + 1] as int].next == next_slot(slots0, i + 1));
            assert(nodes0[slots0[i + 1] as int].prev == prev_slot(slots0, i + 1));
        }
    }
    assert(values(nodes1, slots1) =~= values(nodes0, slots0).remove(pos)) by {
        assert forall|i: int| 0 <= i < slots1.len() implies #[trigger] values(nodes1, slots1)[i]
            == values(nodes0, slots0).remove(pos)[i] by {
            if i < pos {
                assert(slots1[i] == slots0[i]);
            } else {
                assert(slots1[i] == slots0[i + 1]);
            }
        }
    }
}

/// Removing position `pos` from a permutation of the slots below `n` leaves a
/// permutation of the slots below `n` other than `slots0[pos]`.
proof fn lemma_remove_permutes(slots0: Seq<usize>, n: int, pos: int)
    requires
        permutes(slots0, n),
        0 <= pos < n,
    ensures
        forall|i: int, j: int|
            0 <= i < n - 1 && 0 <= j < n - 1 && i != j ==> slots0.remove(pos)[i] != slots0.remove(pos)[j],
        forall|i: int| 0 <= i < n - 1 ==> #[trigger] slots0.remove(pos)[i] < n,
        forall|t: int| 0 <= t < n && t != slots0[pos] ==> #[trigger] has_slot(slots0.remove(pos), t),
{
    let slots1 = slots0.remove(pos);
    assert forall|i: int| 0 <= i < n - 1 implies #[trigger] slots1[i] == slots0[if i < pos { i } else { i + 1 }] by {}
    assert forall|t: int| 0 <= t < n && t != slots0[pos] implies #[trigger] has_slot(slots1, t) by {
        assert(has_slot(slots0, t));
        let k = choose|k: int| 0 <= k < n && slots0[k] == t;
        if k < pos {
            assert(slots1[k] == t);
        } else {
            assert(slots1[k - 1] == t);
        }
    }
}

/// After the arena's last node, at position `j` of `slots1`, has moved into the free slot
/// `s` and its neighbours' links have been redirected to `s`, the list is linked again
/// with `s` in place of the last slot.
proof fn lemma_move_last<T>(
    nodes1: Seq<ListNode<T>>,
    slots1: Seq<usize>,
    head1: Option<usize>,
    tail1: Option<usize>,
    s: int,
    j: int,
    nodes3: Seq<ListNode<T>>,
    head3: Option<usize>,
    tail3: Option<usize>,
)
    requires
        linked(nodes1, slots1, head1, tail1),
        slots1.len() == nodes1.len() - 1,
        forall|i: int, k: int|
            0 <= i < slots1.len() && 0 <= k < slots1.len() && i != k ==> slots1[i] != slots1[k],
        forall|i: int| 0 <= i < slots1.len() ==> #[trigger] slots1[i] < nodes1.len(),
        forall|t: int| 0 <= t < nodes1.len() && t != s ==> #[trigger] has_slot(slots1, t),
        forall|i: int| 0 <= i < slots1.len() ==> #[trigger] slots1[i] != s,
        0 <= s < nodes1.len() - 1,
        0 <= j < slots1.len(),
        slots1[j] == nodes1.len() - 1,
        relinked(
            nodes1.update(s, nodes1.last()).drop_last(),
            nodes3,
            prev_slot(slots1, j),
            Some(s as usize),
            next_slot(slots1, j),
            Some(s as usize),
        ),
        head3 == (if j == 0 { Some(s as usize) } else { head1 }),
        tail3 == (if j == slots1.len() - 1 { Some(s as usize) } else { tail1 }),
    ensures
        linked(nodes3, slots1.update(j, s as usize), head3, tail3),
        permutes(slots1.update(j, s as usize), nodes3.len() as int),
        values(nodes3, slots1.update(j, s as usize)) == values(nodes1, slots1),
{
    let last = nodes1.len() - 1;
    let nodes2 = nodes1.update(s, nodes1.last()).drop_last();
    let slots2 = slots1.update(j, s as usize);
    assert forall|i: int| 0 <= i < slots2.len() implies (#[trigger] nodes3[slots2[i] as int]).next
        == next_slot(slots2, i) && nodes3[slots2[i] as int].prev == prev_slot(slots2, i)
        && nodes3[slots2[i] as int].data == nodes1[slots1[i] as int].data by {
        assert(nodes1[slots1[i] as int].next == next_slot(slots1, i));
        assert(nodes1[slots1[i] as int].prev == prev_slot(slots1, i));
        if i != j {
            assert(slots2[i] == slots1[i]);
            assert(slots1[i] != last);
        }
    }
    assert forall|t: int| 0 <= t < last implies #[trigger] has_slot(slots2, t) by {
        if t == s {
            assert(slots2[j] == t);
        } else {
            assert(has_slot(slots1, t));
            let k = choose|k: int| 0 <= k < slots1.len() && slots1[k] == t;
            assert(slots2[k] == t);
        }
    }
    assert forall|i: int| 0 <= i < slots2.len() implies #[trigger] slots2[i] < last by {
        if i != j {
            assert(slots1[i] != last);
        }
    }
    assert(values(nodes3, slots2) =~= values(nodes1, slots1));
}

/// When the freed slot is the arena's last one, dropping it leaves the list linked.
proof fn lemma_drop_last<T>(
    nodes1: Seq<ListNode<T>>,
    slots1: Seq<usize>,
    head1: Option<usize>,
    tail1: Option<usize>,
)
    requires
        linked(nodes1, slots1, head1, tail1),
        slots1.len() == nodes1.len() - 1,
        forall|i: int, k: int|
            0 <= i < slots1.len() && 0 <= k < slots1.len() && i != k ==> slots1[i] != slots1[k],
        forall|i: int| 0 <= i < slots1.len() ==> #[trigger] slots1[i] < nodes1.len(),
        forall|t: int| 0 <= t < nodes1.len() - 1 ==> #[trigger] has_slot(slots1, t),
        forall|i: int| 0 <= i < slots1.len() ==> #[trigger] slots1[i] != nodes1.len() - 1,
    ensures
        linked(nodes1.drop_last(), slots1, head1, tail1),
        permutes(slots1, nodes1.len() - 1),
        values(nodes1.drop_last(), slots1) == values(nodes1, slots1),
{
    let nodes2 = nodes1.drop_last();
    assert forall|i: int| 0 <= i < slots1.len() implies (#[trigger] nodes2[slots1[i] as int]).next
        == next_slot(slots1, i) && nodes2[slots1[i] as int].prev == prev_slot(slots1, i) by {
        assert(nodes1[slots1[i] as int].next == next_slot(slots1, i));
        assert(nodes1[slots1[i] as int].prev == prev_slot(slots1, i));
    }
    assert(values(nodes2, slots1) =~= values(nodes1, slots1));
}

impl<T> View for DoublyLinkedList<T> {
    type V = Seq<T>;

    /// The elements from head to tail.
    closed spec fn view(&self) -> Seq<T> {
        values(self.nodes@, self.slots@)
    }
}

impl<T> DoublyLinkedList<T> {
    /// The list's well-formedness: the arena holds exactly the list's nodes, and the
    /// links between them are symmetric and agree with the length.
    pub closed spec fn wf(&self) -> bool {
        &&& self.length as int == self.slots@.len()
        &&& permutes(self.slots@, self.nodes@.len() as int)
        &&& linked(self.nodes@, self.slots@, self.head, self.tail)
    }

    /// An empty list.
    pub fn new() -> (r: DoublyLinkedList<T>)
        ensures
            r.wf(),
            r@ == Seq::<T>::empty(),
    {
        DoublyLinkedList { nodes: Vec::new(), head: None, tail: None, length: 0, slots: Ghost(Seq::empty()) }
    }

    /// A list that holds `data` alone.
    pub fn with_value(data: T) -> (r: DoublyLinkedList<T>)
        ensures
            r.wf(),
            r@ == seq![data],
    {
        let mut nodes: Vec<ListNode<T>> = Vec::new();
        nodes.push(ListNode::new(data));
        let ghost slots = seq![0usize];
        let r = DoublyLinkedList { nodes, head: Some(0), tail: Some(0), length: 1, slots: Ghost(slots) };
        proof {
            assert(r.slots@[0] == 0);
            assert(r@ =~= seq![data]);
        }
        r
    }

    /// Whether the list has no element.
    pub fn is_empty(&self) -> (r: bool)
        requires
            self.wf(),
        ensures
            r == (self@.len() == 0),
    {
        self.length == 0 && self.head.is_none()
    }

    /// The number of elements.
    pub fn len(&self) -> (r: usize)
        requires
            self.wf(),
        ensures
            r == self@.len(),
    {
        self.length
    }

    /// Puts a new node holding `data` at position `pos`, between the nodes at slots
    /// `before` and `after`.
    #[verifier::rlimit(60)]
    fn insert_node(&mut self, Ghost(pos): Ghost<int>, data: T, before: Option<usize>, after: Option<usize>)
        requires
            old(self).wf(),
            0 <= pos <= old(self)@.len(),
            old(self)@.len() < usize::MAX,
            before == prev_slot(old(self).slots@, pos),
            after == (if pos < old(self)@.len() { Some(old(self).slots@[pos]) } else { None::<usize> }),
        ensures
            final(self).wf(),
            final(self)@ == old(self)@.insert(pos, data),
    {
        let ghost old_slots = self.slots@;
        let n = self.nodes.len();
        let mut node = ListNode::new(data);
        node.prev = before;
        node.next = after;
        self.nodes.push(node);
        match before {
            Some(b) => {
                self.nodes[b].next = Some(n);
            },
            None => {
                self.head = Some(n);
            },
        }
        match after {
            Some(a) => {
                self.nodes[a].prev = Some(n);
            },
            None => {
                self.tail = Some(n);
            },
        }
        self.length = self.length + 1;
        let ghost slots = old_slots.insert(pos, n);
        self.slots = Ghost(slots);
        proof {
            assert(permutes(slots, n + 1)) by {
                assert forall|s: int| 0 <= s < n + 1 implies #[trigger] has_slot(slots, s) by {
                    if s == n {
                        assert(slots[pos] == s);
                    } else {
                        assert(has_slot(old_slots, s));
                        let i = choose|i: int| 0 <= i < old_slots.len() && old_slots[i] == s;
                        if i < pos {
                            assert(slots[i] == s);
                        } else {
                            assert(slots[i + 1] == s);
                        }
                    }
                }
            }
            assert forall|i: int| 0 <= i < slots.len() implies (#[trigger] self.nodes@[slots[i] as int]).next
                == next_slot(slots, i) by {
                if i < pos {
                    assert(slots[i] == old_slots[i]);
                } else if i > pos {
                    assert(slots[i] == old_slots[i - 1]);
                }
            }
            assert forall|i: int| 0 <= i < slots.len() implies (#[trigger] self.nodes@[slots[i] as int]).prev
                == prev_slot(slots, i) by {
                if i < pos {
                    assert(slots[i] == old_slots[i]);
                } else if i > pos {
                    assert(slots[i] == old_slots[i - 1]);
                }
            }
            assert(self@ =~= old(self)@.insert(pos, data)) by {
                assert forall|i: int| 0 <= i < slots.len() implies #[trigger] self@[i] == old(self)@.insert(pos, data)[i] by {
                    if i < pos {
                        assert(slots[i] == old_slots[i]);
                    } else if i > pos {
                        assert(slots[i] == old_slots[i - 1]);
                    }
                }
            }
        }
    }

    /// Puts `data` in front of the first element.
    pub fn insert_at_beginning(&mut self, data: T)
        requires
            old(self).wf(),
            old(self)@.len() < usize::MAX,
        ensures
            final(self).wf(),
            final(self)@ == seq![data] + old(self)@,
    {
        let head = self.head;
        self.insert_node(Ghost(0), data, None, head);
        proof {
            assert(old(self)@.insert(0, data) =~= seq![data] + old(self)@);
        }
    }

    /// Puts `data` after the last element.
    pub fn insert_at_end(&mut self, data: T)
        requires
            old(self).wf(),
            old(self)@.len() < usize::MAX,
        ensures
            final(self).wf(),
            final(self)@ == old(self)@.push(data),
    {
        let tail = self.tail;
        let ghost n = self@.len() as int;
        self.insert_node(Ghost(n), data, tail, None);
        proof {
            assert(old(self)@.insert(n, data) =~= old(self)@.push(data));
        }
    }

    /// The first element, if any.
    pub fn get_first(&self) -> (r: Option<&T>)
        requires
            self.wf(),
        ensures
            self@.len() == 0 ==> r is None,
            self@.len() > 0 ==> (r matches Some(x) && *x == self@[0]),
    {
        match self.head {
            Some(h) => Some(&self.nodes[h].data),
            None => None,
        }
    }

    /// The first element, for update in place, if any.
    pub fn get_first_mut(&mut self) -> (r: Option<&mut T>)
        requires
            old(self).wf(),
        ensures
            final(self).wf(),
            old(self)@.len() == 0 ==> r is None && final(self)@ == old(self)@,
            old(self)@.len() > 0 ==> (r matches Some(x) && *x == old(self)@[0]
                && final(self)@ == old(self)@.update(0, *final(x))),
    {
        match self.head {
            Some(h) => Some(&mut self.nodes[h].data),
            None => None,
        }
    }

    /// The last element, if any.
    pub fn get_last(&self) -> (r: Option<&T>)
        requires
            self.wf(),
        ensures
            self@.len() == 0 ==> r is None,
            self@.len() > 0 ==> (r matches Some(x) && *x == self@.last()),
    {
        match self.tail {
            Some(t) => Some(&self.nodes[t].data),
            None => None,
        }
    }

    /// The last element, for update in place, if any.
    pub fn get_last_mut(&mut self) -> (r: Option<&mut T>)
        requires
            old(self).wf(),
        ensures
            final(self).wf(),
            old(self)@.len() == 0 ==> r is None && final(self)@ == old(self)@,
            old(self)@.len() > 0 ==> (r matches Some(x) && *x == old(self)@.last()
                && final(self)@ == old(self)@.update(old(self)@.len() - 1, *final(x))),
    {
        match self.tail {
            Some(t) => Some(&mut self.nodes[t].data),
            None => None,
        }
    }

    /// The slot of the element at `pos`, found by following `next` links from the head.
    fn slot_from_start(&self, pos: usize) -> (s: usize)
        requires
            self.wf(),
            pos < self@.len(),
        ensures
            s == self.slots@[pos as int],
    {
        let mut cursor = self.head.unwrap();
        let mut counter: usize = 0;
        while counter < pos
            invariant
                self.wf(),
                counter <= pos < self@.len(),
                cursor == self.slots@[counter as int],
            decreases pos - counter,
        {
            proof {
                assert(self.nodes@[self.slots@[counter as int] as int].next == next_slot(self.slots@, counter as int));
            }
            cursor = self.nodes[cursor].next.unwrap();
            counter = counter + 1;
        }
        cursor
    }

    /// The slot of the element at `pos`, found by following `prev` links from the tail.
    fn slot_from_end(&self, pos: usize) -> (s: usize)
        requires
            self.wf(),
            pos < self@.len(),
        ensures
            s == self.slots@[pos as int],
    {
        let mut cursor = self.tail.unwrap();
        let mut counter: usize = self.length - 1;
        while counter > pos
            invariant
                self.wf(),
                pos <= counter < self@.len(),
                cursor == self.slots@[counter as int],
            decreases counter - pos,
        {
            proof {
                assert(self.nodes@[self.slots@[counter as int] as int].prev == prev_slot(self.slots@, counter as int));
            }
            cursor = self.nodes[cursor].prev.unwrap();
            counter = counter - 1;
        }
        cursor
    }

    /// The slot of the element at `pos`, walking from whichever end is nearer.
    fn slot_at(&self, pos: usize) -> (s: usize)
        requires
            self.wf(),
            pos < self@.len(),
        ensures
            s == self.slots@[pos as int],
    {
        if pos < self.length / 2 {
            self.slot_from_start(pos)
        } else {
            self.slot_from_end(pos)
        }
    }

    /// The element at `pos`.
    pub fn get(&self, pos: usize) -> (r: Option<&T>)
        requires
            self.wf(),
            pos < self@.len(),
        ensures
            r matches Some(x) && *x == self@[pos as int],
    {
        if pos == 0 {
            return self.get_first();
        }
        if pos == self.length - 1 {
            return self.get_last();
        }
        let s = self.slot_at(pos);
        Some(&self.nodes[s].data)
    }

    /// The element at `pos`, for update in place.
    pub fn get_mut(&mut self, pos: usize) -> (r: Option<&mut T>)
        requires
            old(self).wf(),
            pos < old(self)@.len(),
        ensures
            final(self).wf(),
            r matches Some(x) && *x == old(self)@[pos as int]
                && final(self)@ == old(self)@.update(pos as int, *final(x)),
    {
        if pos == 0 {
            return self.get_first_mut();
        }
        if pos == self.length - 1 {
            return self.get_last_mut();
        }
        let s = self.slot_at(pos);
        Some(&mut self.nodes[s].data)
    }

    /// Puts `data` at position `pos`, so that it comes before the element that was there;
    /// `pos == len()` appends. Fails, leaving the list as it was, when `pos > len()`.
    pub fn insert_at_position(&mut self, data: T, pos: usize) -> (r: Result<(), ListError>)
        requires
            old(self).wf(),
            old(self)@.len() < usize::MAX,
        ensures
            final(self).wf(),
            pos <= old(self)@.len() ==> r is Ok && final(self)@ == old(self)@.insert(pos as int, data),
            pos > old(self)@.len() ==> r == Err::<(), ListError>(ListError::IndexOutOfBounds)
                && final(self)@ == old(self)@,
    {
        if pos > self.length {
            return Err(ListError::IndexOutOfBounds);
        }
        if pos == 0 {
            self.insert_at_beginning(data);
            proof {
                assert(old(self)@.insert(0, data) =~= seq![data] + old(self)@);
            }
            return Ok(());
        }
        if pos == self.length {
            self.insert_at_end(data);
            proof {
                assert(old(self)@.insert(pos as int, data) =~= old(self)@.push(data));
            }
            return Ok(());
        }
        let at = self.slot_at(pos);
        let before = self.nodes[at].prev;
        proof {
            assert(self.nodes@[self.slots@[pos as int] as int].prev == prev_slot(self.slots@, pos as int));
        }
        self.insert_node(Ghost(pos as int), data, before, Some(at));
        Ok(())
    }


    /// Sets the `next` link of the node at `at_next` (the head, when that is `None`) to
    /// `next_val`, and the `prev` link of the node at `at_prev` (the tail, when that is
    /// `None`) to `prev_val`.
    fn relink(&mut self, at_next: Option<usize>, next_val: Option<usize>, at_prev: Option<usize>, prev_val: Option<usize>)
        requires
            match at_next {
                Some(x) => x < old(self).nodes@.len(),
                None => true,
            },
            match at_prev {
                Some(x) => x < old(self).nodes@.len(),
                None => true,
            },
            at_next is Some && at_prev is Some ==> at_next != at_prev,
        ensures
            relinked(old(self).nodes@, final(self).nodes@, at_next, next_val, at_prev, prev_val),
            final(self).head == (if at_next is None { next_val } else { old(self).head }),
            final(self).tail == (if at_prev is None { prev_val } else { old(self).tail }),
            final(self).slots == old(self).slots,
            final(self).length == old(self).length,
    {
        let ghost nodes0 = self.nodes@;
        match at_next {
            Some(p) => {
                self.nodes[p].next = next_val;
            },
            None => {
                self.head = next_val;
            },
        }
        let ghost nodes1 = self.nodes@;
        match at_prev {
            Some(q) => {
                self.nodes[q].prev = prev_val;
            },
            None => {
                self.tail = prev_val;
            },
        }
        proof {
            assert forall|x: int| 0 <= x < nodes0.len() implies (#[trigger] self.nodes@[x]).data == nodes0[x].data
                && self.nodes@[x].next == (if names(at_next, x) { next_val } else { nodes0[x].next })
                && self.nodes@[x].prev == (if names(at_prev, x) { prev_val } else { nodes0[x].prev }) by {
                assert(nodes1[x].data == nodes0[x].data);
                assert(nodes1[x].prev == nodes0[x].prev);
                assert(nodes1[x].next == (if names(at_next, x) { next_val } else { nodes0[x].next }));
            }
        }
    }

    /// Takes the node at slot `s`, the element at position `pos`, out of the list and
    /// frees its slot: its neighbours are linked to each other, and the arena's last
    /// node moves into the slot, with its neighbours' links redirected to it.
    fn remove_node(&mut self, Ghost(pos): Ghost<int>, s: usize) -> (data: T)
        requires
            old(self).wf(),
            0 <= pos < old(self)@.len(),
            s == old(self).slots@[pos],
        ensures
            final(self).wf(),
            final(self)@ == old(self)@.remove(pos),
            data == old(self)@[pos],
    {
        let ghost slots0 = self.slots@;
        let ghost nodes0 = self.nodes@;
        let ghost n = slots0.len() as int;
        proof {
            lemma_remove_permutes(slots0, n, pos);
            assert(nodes0[slots0[pos] as int].prev == prev_slot(slots0, pos));
            assert(nodes0[slots0[pos] as int].next == next_slot(slots0, pos));
            if pos > 0 && pos + 1 < n {
                assert(slots0[pos - 1] != slots0[pos + 1]);
            }
        }
        let prev = self.nodes[s].prev;
        let next = self.nodes[s].next;
        self.relink(prev, next, next, prev);
        let ghost slots1 = slots0.remove(pos);
        let ghost nodes1 = self.nodes@;
        let ghost head1 = self.head;
        let ghost tail1 = self.tail;
        proof {
            lemma_splice(nodes0, slots0, old(self).head, old(self).tail, nodes1, head1, tail1, pos);
        }
        let last = self.nodes.len() - 1;
        let removed = self.nodes.swap_remove(s);
        if s != last {
            // The arena's last node stands at some position `j` of the list.
            proof {
                assert(has_slot(slots1, last as int));
            }
            let ghost j = choose|k: int| 0 <= k < slots1.len() && slots1[k] == last as int;
            proof {
                assert(nodes1[slots1[j] as int].prev == prev_slot(slots1, j));
                assert(nodes1[slots1[j] as int].next == next_slot(slots1, j));
                if j > 0 {
                    assert(slots1[j - 1] != last);
                }
                if j + 1 < slots1.len() {
                    assert(slots1[j + 1] != last);
                }
                if j > 0 && j + 1 < slots1.len() {
                    assert(slots1[j - 1] != slots1[j + 1]);
                }
            }
            let moved_prev = self.nodes[s].prev;
            let moved_next = self.nodes[s].next;
            self.relink(moved_prev, Some(s), moved_next, Some(s));
            let ghost slots2 = slots1.update(j, s);
            self.slots = Ghost(slots2);
            proof {
                lemma_move_last(nodes1, slots1, head1, tail1, s as int, j, self.nodes@, self.head, self.tail);
            }
        } else {
            self.slots = Ghost(slots1);
            proof {
                assert(self.nodes@ =~= nodes1.drop_last());
                lemma_drop_last(nodes1, slots1, self.head, self.tail);
            }
        }
        self.length = self.length - 1;
        removed.data
    }

    /// Removes the first element; does nothing on an empty list.
    pub fn delete_first(&mut self)
        requires
            old(self).wf(),
        ensures
            final(self).wf(),
            old(self)@.len() == 0 ==> final(self)@ == old(self)@,
            old(self)@.len() > 0 ==> final(self)@ == old(self)@.drop_first(),
    {
        if let Some(head) = self.head {
            self.remove_node(Ghost(0), head);
            proof {
                assert(old(self)@.remove(0) =~= old(self)@.drop_first());
            }
        }
    }

    /// Removes the last element; does nothing on an empty list.
    pub fn delete_last(&mut self)
        requires
            old(self).wf(),
        ensures
            final(self).wf(),
            old(self)@.len() == 0 ==> final(self)@ == old(self)@,
            old(self)@.len() > 0 ==> final(self)@ == old(self)@.drop_last(),
    {
        if let Some(tail) = self.tail {
            let ghost n = self@.len() as int;
            self.remove_node(Ghost(n - 1), tail);
            proof {
                assert(old(self)@.remove(n - 1) =~= old(self)@.drop_last());
            }
        }
    }

    /// Removes the element at `pos`, reached from the head.
    fn delete_from_start(&mut self, pos: usize)
        requires
            old(self).wf(),
            pos < old(self)@.len(),
        ensures
            final(self).wf(),
            final(self)@ == old(self)@.remove(pos as int),
    {
        let s = self.slot_from_start(pos);
        self.remove_node(Ghost(pos as int), s);
    }

    /// Removes the element at `pos`, reached from the tail.
    fn delete_from_end(&mut self, pos: usize)
        requires
            old(self).wf(),
            pos < old(self)@.len(),
        ensures
            final(self).wf(),
            final(self)@ == old(self)@.remove(pos as int),
    {
        let s = self.slot_from_end(pos);
        self.remove_node(Ghost(pos as int), s);
    }

    /// Removes the element at `pos`, walking from whichever end is nearer.
    pub fn delete(&mut self, pos: usize)
        requires
            old(self).wf(),
            pos < old(self)@.len(),
        ensures
            final(self).wf(),
            final(self)@ == old(self)@.remove(pos as int),
    {
        if pos == 0 {
            self.delete_first();
            proof {
                assert(old(self)@.remove(0) =~= old(self)@.drop_first());
            }
            return;
        }
        if pos == self.length - 1 {
            self.delete_last();
            proof {
                assert(old(self)@.remove(pos as int) =~= old(self)@.drop_last());
            }
            return;
        }
        if pos >= self.length / 2 {
            self.delete_from_end(pos);
            return;
        }
        self.delete_from_start(pos);
    }
}

/// The rendered elements of `s`: each as ` [ v ] `, with ` <=>` between neighbours.
pub open spec fn cells<T: Render>(s: Seq<T>) -> Seq<char>
    decreases s.len(),
{
    if s.len() == 0 {
        Seq::empty()
    } else {
        let sep = if s.len() == 1 {
            Seq::empty()
        } else {
            " <=>"@
        };
        cells(s.drop_last()) + sep + " [ "@ + s.last().text() + " ] "@
    }
}

/// The text of a list of elements `s`: `EMPTY`, or its cells between `START -> ` and
/// `-> NULL`.
pub open spec fn display_text<T: Render>(s: Seq<T>) -> Seq<char> {
    if s.len() == 0 {
        "EMPTY"@
    } else {
        "START -> "@ + cells(s) + "-> NULL"@
    }
}

impl<T: Render> DoublyLinkedList<T> {
    /// The list's text, walking forwards from the head.
    pub fn to_string(&self) -> (r: String)
        requires
            self.wf(),
        ensures
            r@ == display_text(self@),
    {
        if self.length == 0 {
            return String::from_str("EMPTY");
        }
        let mut out = String::from_str("START -> ");
        let mut cursor = self.head;
        let mut counter: usize = 0;
        while cursor.is_some()
            invariant
                self.wf(),
                counter <= self@.len(),
                cursor == (if counter < self@.len() { Some(self.slots@[counter as int]) } else { None::<usize> }),
                out@ == "START -> "@ + cells(self@.take(counter as int)),
            decreases self@.len() - counter,
        {
            let current = cursor.unwrap();
            proof {
                assert(self.nodes@[self.slots@[counter as int] as int].next == next_slot(self.slots@, counter as int));
                assert(self@.take(counter + 1).drop_last() =~= self@.take(counter as int));
            }
            if counter > 0 {
                out.append(" <=>");
            }
            out.append(" [ ");
            let text = self.nodes[current].data.render();
            out.append(text.as_str());
            out.append(" ] ");
            cursor = self.nodes[current].next;
            counter = counter + 1;
            proof {
                let k = counter as int;
                assert(self@.take(k).last() == self@[k - 1]);
                assert(out@ == "START -> "@ + cells(self@.take(k)));
            }
        }
        out.append("-> NULL");
        proof {
            assert(self@.take(self@.len() as int) =~= self@);
        }
        out
    }
}

/// The elements of a list holding `s` after `insert_at_end` has been called with each
/// element of `vs` in turn.
pub open spec fn appended<T>(s: Seq<T>, vs: Seq<T>) -> Seq<T>
    decreases vs.len(),
{
    if vs.len() == 0 {
        s
    } else {
        appended(s, vs.drop_last()).push(vs.last())
    }
}

/// Inserting the values `vs` one by one at the end of an empty list gives a list of
/// `vs.len()` elements whose element `i` is `vs[i]`.
pub proof fn lemma_insert_at_end_in_order<T>(vs: Seq<T>)
    ensures
        appended(Seq::empty(), vs).len() == vs.len(),
        forall|i: int| 0 <= i < vs.len() ==> #[trigger] appended(Seq::empty(), vs)[i] == vs[i],
    decreases vs.len(),
{
    if vs.len() > 0 {
        lemma_insert_at_end_in_order(vs.drop_last());
    }
    assert(appended(Seq::empty(), vs) =~= vs);
}

/// Inserting `v` at a valid position `pos` of a list holding `s` and then deleting the
/// element at `pos` gives back `s`; `pos` is in range for the deletion.
pub proof fn lemma_insert_then_delete<T>(s: Seq<T>, v: T, pos: int)
    requires
        0 <= pos <= s.len(),
    ensures
        pos < s.insert(pos, v).len(),
        s.insert(pos, v).remove(pos) == s,
{
    assert(s.insert(pos, v).remove(pos) =~= s);
}

} // verus!
