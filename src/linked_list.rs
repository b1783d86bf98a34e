//! A singly linked chain of boxed nodes, handled through its head: each operation
//! takes the chain (or `None` for an empty one) and returns its new head.

use vstd::prelude::*;
use crate::render::Render;

verus! {

/// A node of the chain: an element and the rest of the chain after it.
pub struct ListNode<T> {
    pub data: T,
    pub next: Option<Box<ListNode<T>>>,
}

impl<T> ListNode<T> {
    /// The elements from this node to the end of the chain.
    pub open spec fn values(&self) -> Seq<T>
        decreases self,
    {
        match self.next {
            Some(rest) => seq![self.data] + rest.values(),
            None => seq![self.data],
        }
    }

    /// A node that holds `value` and ends the chain.
    pub fn new(value: T) -> (r: ListNode<T>)
        ensures
            r.data == value,
            r.next is None,
            r.values() == seq![value],
    {
        ListNode { data: value, next: None }
    }
}

impl<T: Render> ListNode<T> {
    /// The node's element in brackets.
    pub fn to_string(&self) -> (r: String)
        ensures
            r@ == "["@ + self.data.text() + "]"@,
    {
        let mut out = String::from_str("[");
        let text = self.data.render();
        out.append(text.as_str());
        out.append("]");
        out
    }
}

/// Relies on the `Pointer` formatting (`{:p}`) of a reference: the node's address. What
/// an address reads depends on the run, so nothing is stated of it.
#[verifier::external_body]
fn address_text<T>(node: &ListNode<T>) -> (r: String) {
    format!("{:p}", node)
}

impl<T> ListNode<T> {
    /// The node's address in brackets, which tells nodes apart while debugging.
    pub fn _to_string_debug(&self) -> (r: String)
        ensures
            r@.len() >= 2,
            r@[0] == '[',
            r@.last() == ']',
    {
        let mut out = String::from_str("[");
        let address = address_text(self);
        out.append(address.as_str());
        out.append("]");
        proof {
            reveal_strlit("[");
            reveal_strlit("]");
        }
        out
    }
}

/// The elements of the chain that starts at `head`; none for `None`.
pub open spec fn chain<T>(head: Option<Box<ListNode<T>>>) -> Seq<T> {
    match head {
        Some(node) => node.values(),
        None => Seq::empty(),
    }
}

/// A chain always holds at least its first node.
proof fn lemma_values_nonempty<T>(node: &ListNode<T>)
    ensures
        node.values().len() >= 1,
        node.values()[0] == node.data,
{
}

/// The number of nodes from `head` to the end of the chain.
pub fn length<T>(head: &ListNode<T>) -> (r: i32)
    requires
        head.values().len() <= i32::MAX,
    ensures
        r == head.values().len(),
{
    let mut cur = head;
    let mut count: i32 = 1;
    loop
        invariant
            count >= 1,
            count + cur.values().len() - 1 == head.values().len(),
            head.values().len() <= i32::MAX,
        ensures
            count == head.values().len(),
        decreases cur.values().len(),
    {
        proof {
            lemma_values_nonempty(cur);
        }
        match &cur.next {
            Some(node) => {
                proof {
                    lemma_values_nonempty(&**node);
                }
                cur = &**node;
                count = count + 1;
            },
            None => {
                proof {
                    assert(cur.values() == seq![cur.data]);
                }
                break;
            },
        }
    }
    count
}

/// The chain with `data` in front of it.
pub fn insert_at_beginning<T>(head: Option<Box<ListNode<T>>>, data: T) -> (r: Box<ListNode<T>>)
    ensures
        r.values() == seq![data] + chain(head),
{
    let mut new_node = Box::new(ListNode::new(data));
    match head {
        Some(node) => {
            new_node.next = Some(node);
            proof {
                assert(chain(head) == node.values());
            }
            new_node
        },
        None => {
            proof {
                assert(seq![data] + chain(head) =~= seq![data]);
            }
            new_node
        },
    }
}

/// The chain with `data` after its last element.
pub fn insert_at_end<T>(head: Option<Box<ListNode<T>>>, data: T) -> (r: Box<ListNode<T>>)
    ensures
        r.values() == chain(head).push(data),
    decreases chain(head).len(),
{
    match head {
        Some(mut node) => {
            let ghost old_node = *node;
            let rest = node.next.take();
            proof {
                assert(old_node.values() == seq![old_node.data] + chain(rest));
            }
            node.next = Some(insert_at_end(rest, data));
            proof {
                assert(node.values() =~= chain(head).push(data));
            }
            node
        },
        None => {
            proof {
                assert(chain(head).push(data) =~= seq![data]);
            }
            Box::new(ListNode::new(data))
        },
    }
}

/// The chain with `data` put at position `pos`, so that it comes after the first `pos`
/// elements; `pos` equal to the length appends. For a larger `pos` the chain is
/// returned as it was. An empty chain takes position 0 only.
pub fn insert_at_position<T>(head: Option<Box<ListNode<T>>>, data: T, pos: usize) -> (r: Box<ListNode<T>>)
    requires
        pos == 0 || head is Some,
    ensures
        pos <= chain(head).len() ==> r.values() == chain(head).insert(pos as int, data),
        pos > chain(head).len() ==> r.values() == chain(head),
    decreases chain(head).len(),
{
    if pos == 0 {
        let r = insert_at_beginning(head, data);
        proof {
            assert(chain(head).insert(0, data) =~= seq![data] + chain(head));
        }
        return r;
    }
    match head {
        Some(mut node) => {
            let ghost old_node = *node;
            let rest = node.next.take();
            proof {
                assert(old_node.values() == seq![old_node.data] + chain(rest));
            }
            if pos > 1 && rest.is_none() {
                node.next = rest;
                proof {
                    assert(node.values() == old_node.values());
                }
                return node;
            }
            node.next = Some(insert_at_position(rest, data, pos - 1));
            proof {
                if pos <= chain(head).len() {
                    assert(node.values() =~= chain(head).insert(pos as int, data));
                } else {
                    assert(node.values() =~= chain(head));
                }
            }
            node
        },
        None => {
            // Ruled out by the precondition.
            Box::new(ListNode::new(data))
        },
    }
}

/// The chain without its first element.
pub fn delete_first<T>(head: Option<Box<ListNode<T>>>) -> (r: Option<Box<ListNode<T>>>)
    ensures
        chain(r) == (if chain(head).len() == 0 { chain(head) } else { chain(head).drop_first() }),
{
    match head {
        Some(first_node) => {
            let ListNode { data, next } = *first_node;
            proof {
                assert(chain(head) == seq![data] + chain(next));
                assert(chain(head).drop_first() =~= chain(next));
            }
            next
        },
        None => None,
    }
}

/// The chain without its last element.
pub fn delete_last<T>(head: Option<Box<ListNode<T>>>) -> (r: Option<Box<ListNode<T>>>)
    ensures
        chain(r) == (if chain(head).len() == 0 { chain(head) } else { chain(head).drop_last() }),
    decreases chain(head).len(),
{
    match head {
        Some(mut node) => {
            let ghost old_node = *node;
            let rest = node.next.take();
            proof {
                assert(old_node.values() == seq![old_node.data] + chain(rest));
            }
            match rest {
                Some(_) => {
                    node.next = delete_last(rest);
                    proof {
                        lemma_values_nonempty(&*rest.unwrap());
                        assert(node.values() =~= chain(head).drop_last());
                    }
                    Some(node)
                },
                None => {
                    proof {
                        assert(chain(head).drop_last() =~= Seq::<T>::empty());
                    }
                    None
                },
            }
        },
        None => None,
    }
}

/// The chain without the element at `position`; unchanged when there is none.
pub fn delete_at_position<T>(head: Option<Box<ListNode<T>>>, position: usize) -> (r: Option<Box<ListNode<T>>>)
    ensures
        position < chain(head).len() ==> chain(r) == chain(head).remove(position as int),
        position >= chain(head).len() ==> chain(r) == chain(head),
    decreases chain(head).len(),
{
    if position == 0 {
        let r = delete_first(head);
        proof {
            if chain(head).len() > 0 {
                assert(chain(head).remove(0) =~= chain(head).drop_first());
            }
        }
        return r;
    }
    match head {
        Some(mut node) => {
            let ghost old_node = *node;
            let rest = node.next.take();
            proof {
                assert(old_node.values() == seq![old_node.data] + chain(rest));
            }
            node.next = delete_at_position(rest, position - 1);
            proof {
                if position < chain(head).len() {
                    assert(node.values() =~= chain(head).remove(position as int));
                } else {
                    assert(node.values() =~= chain(head));
                }
            }
            Some(node)
        },
        None => None,
    }
}

/// The rendered elements of `s`, each as `[v]` followed by ` -> `.
pub open spec fn arrows<T: Render>(s: Seq<T>) -> Seq<char>
    decreases s.len(),
{
    if s.len() == 0 {
        Seq::empty()
    } else {
        arrows(s.drop_last()) + ("["@ + s.last().text() + "]"@) + " -> "@
    }
}

/// The text of a chain of elements `s`: its elements, each followed by ` -> `, then `None`.
pub open spec fn chain_text<T: Render>(s: Seq<T>) -> Seq<char> {
    arrows(s) + "None"@
}

/// The text of the chain from `head`, walking it forwards.
pub fn render_chain<T: Render>(head: &ListNode<T>) -> (r: String)
    ensures
        r@ == chain_text(head.values()),
{
    let mut out = String::new();
    let mut cur = head;
    let ghost mut k: int = 0;
    loop
        invariant_except_break
            k < head.values().len(),
            head.values().skip(k) == cur.values(),
        invariant
            0 <= k <= head.values().len(),
            out@ == arrows(head.values().take(k)),
        ensures
            out@ == arrows(head.values()),
        decreases head.values().len() - k,
    {
        proof {
            lemma_values_nonempty(cur);
            assert(head.values()[k] == cur.data) by {
                assert(head.values().skip(k)[0] == head.values()[k]);
            }
            assert(head.values().take(k + 1).drop_last() =~= head.values().take(k));
        }
        let text = cur.to_string();
        out.append(text.as_str());
        out.append(" -> ");
        proof {
            k = k + 1;
            assert(out@ == arrows(head.values().take(k)));
        }
        match &cur.next {
            Some(node) => {
                proof {
                    assert(cur.values() == seq![cur.data] + node.values());
                    assert(head.values().skip(k) =~= cur.values().skip(1));
                    assert(cur.values().skip(1) =~= node.values());
                }
                cur = &**node;
            },
            None => {
                proof {
                    assert(cur.values() == seq![cur.data]);
                    assert(head.values().skip(k - 1).len() == 1);
                    assert(head.values().take(k) =~= head.values());
                }
                break;
            },
        }
    }
    out.append("None");
    out
}

} // verus!
