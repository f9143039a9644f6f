use vstd::prelude::*;
use crate::node::Handle;

verus! {

/// One atomic access to the shared state of a list.
///
/// An operation on the list is a sequence of such accesses; between any two
/// of them other operations may perform theirs. `AdvanceHead`, `Stack` and
/// `Unstack` are the same compare-and-swap on `head`, named by what it does
/// to the list when it succeeds.
#[derive(Clone, Copy, PartialEq, Eq, Structural, Debug)]
pub enum Action {
    /// Protected load of the list's `head`.
    ProtectHead,
    /// Protected load of the list's `tail`.
    ProtectTail,
    /// Protected load of `node`'s `next` link.
    ProtectNext { node: Handle },
    /// Protected load of `node`'s `next` link, together with the end at
    /// which the node went in.
    Inspect { node: Handle },
    /// Compare-and-swap on `head`, from the anchor `from` to its successor
    /// `to`, which becomes the anchor.
    AdvanceHead { from: Handle, to: Handle },
    /// Compare-and-swap on `head`, from `onto` to the node `new`, which is
    /// put in front of it.
    Stack { onto: Handle, new: Handle },
    /// Compare-and-swap on `head`, from the node `from` that was put in
    /// front to its successor `to`.
    Unstack { from: Handle, to: Handle },
    /// Compare-and-swap on `tail`: from `from` to `to`.
    AdvanceTail { from: Handle, to: Handle },
    /// Compare-and-swap on `node`'s `next` link: from absent to `new`.
    LinkNext { node: Handle, new: Handle },
    /// Compare-and-swap on `node`'s `prev` link: from absent to `new`.
    LinkPrev { node: Handle, new: Handle },
    /// Store `to` into `node`'s `next` link.
    StoreNext { node: Handle, to: Handle },
    /// Move the payload out of `node`'s slot.
    Consume { node: Handle },
    /// Hand `node` to the reclamation service.
    Retire { node: Handle },
    /// Add one to the length counter, wrapping.
    Increment,
    /// Subtract one from the length counter, wrapping.
    Decrement,
}

/// What an atomic access reports back to the operation that made it.
#[derive(Clone, Copy, PartialEq, Eq, Structural, Debug)]
pub enum Event {
    /// The value a protected load has read.
    Loaded(Option<Handle>),
    /// What an inspection has read: whether the node went in at the front,
    /// and its `next` link.
    Found { front: bool, next: Option<Handle> },
    /// Whether a compare-and-swap has installed its new value.
    Exchanged(bool),
    /// A store, a payload move, a retirement or a counter update is done.
    Performed,
}

} // verus!
