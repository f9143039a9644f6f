use vstd::prelude::*;
use vstd::wrapping::usize_specs::{wrapping_add, wrapping_sub};
use crate::action::{Action, Event};
use crate::node::{Handle, Node};

verus! {

/// The shared state of a list, as the atomic accesses see it, together with
/// a record of how the nodes came to stand where they stand.
pub struct Memory<T> {
    /// Every node allocated so far; a handle is an index into this sequence.
    pub nodes: Seq<Node<T>>,
    /// The node the list's `head` refers to.
    pub head: Handle,
    /// The node the list's `tail` refers to.
    pub tail: Handle,
    /// The length counter.
    pub len: usize,
    /// The nodes handed to the reclamation service, oldest first.
    pub retired: Seq<Handle>,
    /// The sentinel and the nodes appended behind it, in the order in which
    /// they were linked: a successful link at a `next` appends the new node.
    pub order: Seq<Handle>,
    /// The anchor: the node of `order` in front of the first appended
    /// element. A successful `AdvanceHead` makes the successor the anchor.
    pub anchor: Handle,
    /// The nodes put in front that `head` has not left yet, topmost first: a
    /// successful `Stack` puts the new node on top, a successful `Unstack`
    /// takes the top off.
    pub stack: Seq<Handle>,
    /// The nodes put in front that `head` has left, oldest first.
    pub spent: Seq<Handle>,
}

impl<T> Memory<T> {
    /// Whether `h` names an allocated node.
    pub open spec fn has(self, h: Handle) -> bool {
        h < self.nodes.len()
    }

    /// Whether every handle that `action` dereferences or installs names an
    /// allocated node.
    pub open spec fn admits(self, action: Action) -> bool {
        match action {
            Action::ProtectHead | Action::ProtectTail => true,
            Action::ProtectNext { node } | Action::Inspect { node } => self.has(node),
            Action::AdvanceHead { from, to } | Action::AdvanceTail { from, to } => self.has(to),
            Action::Unstack { from, to } => self.has(to),
            Action::Stack { onto, new } => self.has(new),
            Action::LinkNext { node, new } | Action::LinkPrev { node, new } => self.has(node)
                && self.has(new),
            Action::StoreNext { node, to } => self.has(node) && self.has(to),
            Action::Consume { node } | Action::Retire { node } => self.has(node),
            Action::Increment | Action::Decrement => true,
        }
    }

    /// The state with `node`'s `next` link set to `to`.
    pub open spec fn with_next(self, node: Handle, to: Option<Handle>) -> Self {
        Memory {
            nodes: self.nodes.update(node as int, Node { next: to, ..self.nodes[node as int] }),
            ..self
        }
    }

    /// The state with `node`'s `prev` link set to `to`.
    pub open spec fn with_prev(self, node: Handle, to: Option<Handle>) -> Self {
        Memory {
            nodes: self.nodes.update(node as int, Node { prev: to, ..self.nodes[node as int] }),
            ..self
        }
    }

    /// The state with `node`'s payload slot emptied.
    pub open spec fn with_empty_slot(self, node: Handle) -> Self {
        Memory {
            nodes: self.nodes.update(node as int, Node { inner: None, ..self.nodes[node as int] }),
            ..self
        }
    }

    /// The state after `action`. An action that the state does not admit
    /// changes nothing.
    pub open spec fn apply(self, action: Action) -> Self {
        if !self.admits(action) {
            self
        } else {
            match action {
                Action::ProtectHead | Action::ProtectTail => self,
                Action::ProtectNext { node } | Action::Inspect { node } => self,
                Action::AdvanceHead { from, to } => if self.head == from {
                    Memory { head: to, anchor: to, ..self }
                } else {
                    self
                },
                Action::Stack { onto, new } => if self.head == onto {
                    Memory { head: new, stack: seq![new] + self.stack, ..self }
                } else {
                    self
                },
                Action::Unstack { from, to } => if self.head == from {
                    Memory {
                        head: to,
                        stack: self.stack.drop_first(),
                        spent: self.spent.push(from),
                        ..self
                    }
                } else {
                    self
                },
                Action::AdvanceTail { from, to } => if self.tail == from {
                    Memory { tail: to, ..self }
                } else {
                    self
                },
                Action::LinkNext { node, new } => if self.nodes[node as int].next is None {
                    Memory { order: self.order.push(new), ..self.with_next(node, Some(new)) }
                } else {
                    self
                },
                Action::LinkPrev { node, new } => if self.nodes[node as int].prev is None {
                    self.with_prev(node, Some(new))
                } else {
                    self
                },
                Action::StoreNext { node, to } => self.with_next(node, Some(to)),
                Action::Consume { node } => self.with_empty_slot(node),
                Action::Retire { node } => Memory { retired: self.retired.push(node), ..self },
                Action::Increment => Memory { len: wrapping_add(self.len, 1), ..self },
                Action::Decrement => Memory { len: wrapping_sub(self.len, 1), ..self },
            }
        }
    }

    /// What `action` reports when it is performed in this state. A load that
    /// the state does not admit reads nothing, and a compare-and-swap that it
    /// does not admit fails.
    pub open spec fn answer(self, action: Action) -> Event {
        match action {
            Action::ProtectHead => Event::Loaded(Some(self.head)),
            Action::ProtectTail => Event::Loaded(Some(self.tail)),
            Action::ProtectNext { node } => Event::Loaded(
                if self.has(node) {
                    self.nodes[node as int].next
                } else {
                    None
                },
            ),
            Action::Inspect { node } => if self.has(node) {
                Event::Found {
                    front: self.nodes[node as int].front,
                    next: self.nodes[node as int].next,
                }
            } else {
                Event::Found { front: false, next: None }
            },
            Action::AdvanceHead { from, to } => Event::Exchanged(self.has(to) && self.head == from),
            Action::Unstack { from, to } => Event::Exchanged(self.has(to) && self.head == from),
            Action::Stack { onto, new } => Event::Exchanged(self.has(new) && self.head == onto),
            Action::AdvanceTail { from, to } => Event::Exchanged(self.has(to) && self.tail == from),
            Action::LinkNext { node, new } => Event::Exchanged(
                self.admits(action) && self.nodes[node as int].next is None,
            ),
            Action::LinkPrev { node, new } => Event::Exchanged(
                self.admits(action) && self.nodes[node as int].prev is None,
            ),
            Action::StoreNext { .. } => Event::Performed,
            Action::Consume { .. } | Action::Retire { .. } => Event::Performed,
            Action::Increment | Action::Decrement => Event::Performed,
        }
    }

    /// The payload that `action` moves out of the state: the content of the
    /// slot for a `Consume` of an allocated node, nothing otherwise.
    pub open spec fn gives(self, action: Action) -> Option<T> {
        match action {
            Action::Consume { node } => if self.has(node) {
                self.nodes[node as int].inner
            } else {
                None
            },
            _ => None,
        }
    }

    /// The state with one more node allocated, not linked anywhere.
    pub open spec fn allocate(self, node: Node<T>) -> Self {
        Memory { nodes: self.nodes.push(node), ..self }
    }
}

} // verus!
