use vstd::prelude::*;

verus! {

/// A handle to a node: its index among the nodes a list has allocated.
/// An absent neighbour is `None`.
pub type Handle = usize;

/// One node of the list: a payload slot and the two links.
///
/// The slot is filled when the node is created for a value and emptied when
/// that value is moved out; the sentinel's slot is never filled. A link that
/// is `None` means that no such neighbour has been linked yet. A node knows
/// for good at which end it went in: removal takes a node that was put in
/// front off `head` itself, and takes the successor of any other node that
/// `head` refers to.
#[derive(Debug)]
pub struct Node<T> {
    /// The payload slot.
    pub inner: Option<T>,
    /// The node behind this one.
    pub next: Option<Handle>,
    /// The node that stood in front of this one when the link was set.
    pub prev: Option<Handle>,
    /// Whether the node was put in at the front.
    pub front: bool,
}

impl<T> Node<T> {
    /// A node for `value` to be appended at the back: no neighbours.
    pub open spec fn holding(value: T) -> Self {
        Node { inner: Some(value), next: None, prev: None, front: false }
    }

    /// A node for `value` to be put in front: no neighbours.
    pub open spec fn heading(value: T) -> Self {
        Node { inner: Some(value), next: None, prev: None, front: true }
    }

    /// The placeholder node: no payload, no neighbours.
    pub open spec fn placeholder() -> Self {
        Node { inner: None, next: None, prev: None, front: false }
    }

    /// A node that holds `t`, to be appended at the back.
    pub fn new(t: T) -> (node: Self)
        ensures
            node == Node::holding(t),
    {
        Node { inner: Some(t), next: None, prev: None, front: false }
    }

    /// A node that holds `t`, to be put in front.
    pub fn new_front(t: T) -> (node: Self)
        ensures
            node == Node::heading(t),
    {
        Node { inner: Some(t), next: None, prev: None, front: true }
    }

    /// The placeholder node, which anchors a new list.
    pub fn sentinel() -> (node: Self)
        ensures
            node == Node::<T>::placeholder(),
    {
        Node { inner: None, next: None, prev: None, front: false }
    }
}

} // verus!
