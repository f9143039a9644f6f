use vstd::prelude::*;
use vstd::wrapping::usize_specs::{wrapping_add, wrapping_sub};
use crate::memory::Memory;
use crate::node::{Handle, Node};

verus! {

impl<T> Memory<T> {
    /// The node at position `i` of `order`.
    pub open spec fn at(self, i: int) -> Node<T> {
        self.nodes[self.order[i] as int]
    }

    /// The handle behind position `i` of `order`, if there is one.
    pub open spec fn after(self, i: int) -> Option<Handle> {
        if i + 1 < self.order.len() {
            Some(self.order[i + 1])
        } else {
            None
        }
    }

    /// The node at place `j` of the stack, counted from the top.
    pub open spec fn up(self, j: int) -> Node<T> {
        self.nodes[self.stack[j] as int]
    }

    /// The handle below place `j` of the stack: the next node of the stack,
    /// or the anchor below the lowest.
    pub open spec fn below(self, j: int) -> Handle {
        if j + 1 < self.stack.len() {
            self.stack[j + 1]
        } else {
            self.anchor
        }
    }

    /// The position of `handle` in `order`.
    pub open spec fn position(self, handle: Handle) -> int {
        self.order.index_of(handle)
    }

    /// The position of the anchor in `order`.
    pub open spec fn pivot(self) -> int {
        self.position(self.anchor)
    }

    /// The position in `order` of the node that `tail` refers to.
    pub open spec fn rear(self) -> int {
        self.position(self.tail)
    }

    /// The frontmost node: the top of the stack, or the anchor where nothing
    /// is stacked.
    pub open spec fn top(self) -> Handle {
        if self.stack.len() > 0 {
            self.stack[0]
        } else {
            self.anchor
        }
    }

    /// The number of appended nodes behind the anchor.
    pub open spec fn behind(self) -> nat {
        (self.order.len() - 1 - self.pivot()) as nat
    }

    /// The values that the list holds, front to back: those of the stack
    /// from the top down, then those of the nodes behind the anchor.
    pub open spec fn elements(self) -> Seq<T> {
        Seq::new(self.stack.len(), |j: int| self.up(j).inner->0) + Seq::new(
            self.behind(),
            |i: int| self.at(self.pivot() + 1 + i).inner->0,
        )
    }

    /// The node has left the list: it stands in `order` in front of the
    /// anchor, or it was put in front and `head` has left it.
    pub open spec fn gone(self, handle: Handle) -> bool {
        ||| self.order.contains(handle) && self.position(handle) < self.pivot()
        ||| self.spent.contains(handle)
    }

    /// `order` names allocated nodes that were appended, none twice, linked
    /// by `next`; those behind the anchor are filled, the anchor and those in
    /// front of it are empty; `tail` refers to the anchor or a node behind.
    pub open spec fn appended(self) -> bool {
        &&& forall|i: int|
            0 <= i < self.order.len() ==> self.has(#[trigger] self.order[i])
                && !self.nodes[self.order[i] as int].front
        &&& self.order.no_duplicates()
        &&& forall|i: int|
            0 <= i < self.order.len() ==> (#[trigger] self.at(i)).next == self.after(i)
                && (self.at(i).inner is Some <==> self.pivot() < i)
        &&& self.order.contains(self.anchor)
        &&& self.order.contains(self.tail)
        &&& self.pivot() <= self.rear()
    }

    /// The stack names allocated, filled nodes that were put in front, none
    /// twice, each linked by `next` to the one below and the lowest to the
    /// anchor; the nodes that `head` has left are empty.
    pub open spec fn stacked(self) -> bool {
        &&& self.stack.no_duplicates()
        &&& forall|j: int|
            0 <= j < self.stack.len() ==> self.has(#[trigger] self.stack[j]) && self.up(j).front
                && self.up(j).inner is Some && self.up(j).next == Some(self.below(j))
        &&& self.spent.no_duplicates()
        &&& forall|j: int|
            0 <= j < self.spent.len() ==> self.has(#[trigger] self.spent[j])
                && self.nodes[self.spent[j] as int].front
                && self.nodes[self.spent[j] as int].inner is None && !self.stack.contains(
                self.spent[j],
            )
    }

    /// Exactly the nodes that have left the list are retired, each once.
    pub open spec fn reclaimed(self) -> bool {
        &&& self.retired.no_duplicates()
        &&& forall|j: int| 0 <= j < self.retired.len() ==> self.gone(#[trigger] self.retired[j])
        &&& forall|i: int|
            0 <= i < self.pivot() ==> self.retired.contains(#[trigger] self.order[i])
        &&& forall|j: int|
            0 <= j < self.spent.len() ==> self.retired.contains(#[trigger] self.spent[j])
    }

    /// The state of a list at rest: every allocated node is appended,
    /// stacked or spent; `head` refers to the frontmost node; the nodes that
    /// have left the list, and no others, are retired; and the length
    /// counter is the number of values held.
    pub open spec fn wf(self) -> bool {
        &&& self.nodes.len() <= usize::MAX
        &&& self.appended()
        &&& self.stacked()
        &&& self.reclaimed()
        &&& self.head == self.top()
        &&& forall|h: Handle|
            self.has(h) ==> (#[trigger] self.order.contains(h)) || self.stack.contains(h)
                || self.spent.contains(h)
        &&& self.order.len() + self.stack.len() + self.spent.len() == self.nodes.len()
        &&& self.len == self.stack.len() + self.behind()
    }

    /// Neither `head` nor `tail` refers to the node, and no `next` link of a
    /// node that holds a value or anchors the list leads to it.
    pub open spec fn out_of_reach(self, handle: Handle) -> bool {
        &&& handle != self.head
        &&& handle != self.tail
        &&& self.gone(handle)
    }

    /// The state at rest after a node for `value` is appended: it is linked
    /// behind the last node, and `tail` refers to it.
    pub open spec fn pushed_back(self, value: T) -> Self {
        let new = self.nodes.len() as Handle;
        let last = self.order.last();
        Memory {
            tail: new,
            len: wrapping_add(self.len, 1),
            order: self.order.push(new),
            ..self.allocate(Node::holding(value)).with_next(last, Some(new)).with_prev(
                new,
                Some(last),
            )
        }
    }

    /// The state at rest after a node for `value` is put in front: it points
    /// at the node that `head` referred to, `head` refers to it, and it is
    /// the `prev` of that node if that had none.
    pub open spec fn pushed_front(self, value: T) -> Self {
        let new = self.nodes.len() as Handle;
        let onto = self.head;
        let pointed = self.allocate(Node::heading(value)).with_next(new, Some(onto));
        let noted = if self.nodes[onto as int].prev is None {
            pointed.with_prev(onto, Some(new))
        } else {
            pointed
        };
        Memory {
            head: new,
            len: wrapping_add(self.len, 1),
            stack: seq![new] + self.stack,
            ..noted
        }
    }

    /// The state at rest after the frontmost value is removed. Where a node
    /// is stacked, the top has given up its payload, `head` refers to the
    /// node below, and the top is retired. Otherwise the node behind the
    /// anchor has given up its payload and is the anchor, `tail` no longer
    /// refers to the old anchor, and the old anchor is retired.
    pub open spec fn popped(self) -> Self {
        if self.stack.len() > 0 {
            Memory {
                head: self.below(0),
                len: wrapping_sub(self.len, 1),
                stack: self.stack.drop_first(),
                spent: self.spent.push(self.head),
                retired: self.retired.push(self.head),
                ..self.with_empty_slot(self.head)
            }
        } else {
            let next = self.order[self.pivot() + 1];
            Memory {
                head: next,
                anchor: next,
                tail: if self.tail == self.head {
                    next
                } else {
                    self.tail
                },
                len: wrapping_sub(self.len, 1),
                retired: self.retired.push(self.head),
                ..self.with_empty_slot(next)
            }
        }
    }

    /// In a sequence without duplicates a handle stands at one position only.
    pub proof fn lemma_position(self, i: int)
        requires
            self.order.no_duplicates(),
            0 <= i < self.order.len(),
        ensures
            self.position(self.order[i]) == i,
    {
    }

    /// A handle of `order` stands at its position.
    pub proof fn lemma_position_of(self, handle: Handle)
        requires
            self.order.contains(handle),
        ensures
            0 <= self.position(handle) < self.order.len(),
            self.order[self.position(handle)] == handle,
    {
    }

    /// In a state at rest a node is of one sort only: appended, stacked or
    /// spent.
    pub proof fn lemma_sorts(self, handle: Handle)
        requires
            self.wf(),
        ensures
            self.order.contains(handle) ==> self.has(handle) && !self.nodes[handle as int].front,
            self.stack.contains(handle) ==> self.has(handle) && self.nodes[handle as int].front
                && self.nodes[handle as int].inner is Some,
            self.spent.contains(handle) ==> self.has(handle) && self.nodes[handle as int].front
                && self.nodes[handle as int].inner is None,
    {
        if self.order.contains(handle) {
            self.lemma_position_of(handle);
        }
        if self.stack.contains(handle) {
            let j = choose|j: int| 0 <= j < self.stack.len() && self.stack[j] == handle;
            assert(self.up(j).front);
        }
        if self.spent.contains(handle) {
            let j = choose|j: int| 0 <= j < self.spent.len() && self.spent[j] == handle;
            assert(self.has(self.spent[j]));
        }
    }
}

} // verus!
