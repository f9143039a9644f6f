use vstd::prelude::*;
use crate::action::{Action, Event};
use crate::memory::Memory;
use crate::node::Handle;

verus! {

/// Appending the node `new` at the tail, one atomic access at a time.
///
/// Each state names the access it is about to make. `tail` may lag behind the
/// last node: an operation that finds a successor behind the node it loaded
/// helps `tail` forward and starts over.
#[derive(Clone, Copy, PartialEq, Eq, Structural, Debug)]
pub enum PushBack {
    /// Load `tail`.
    LoadTail { new: Handle },
    /// Load the `next` link of `onto`, the node that `tail` referred to.
    LoadNext { new: Handle, onto: Handle },
    /// `onto` has the successor `next`: help `tail` from `onto` to `next`.
    Help { new: Handle, onto: Handle, next: Handle },
    /// `onto` had no successor: try to install `new` as its `next`.
    Link { new: Handle, onto: Handle },
    /// `new` is linked: note `onto` as its `prev`, if it has none yet.
    SetPrev { new: Handle, onto: Handle },
    /// Try to move `tail` from `onto` to `new`.
    Swing { new: Handle, onto: Handle },
    /// Count the new element.
    Count,
    /// Nothing is left to do.
    Done,
}

/// Putting the node `new` in front, one atomic access at a time: the node
/// is pointed at the node that `head` refers to and then swapped in for it.
#[derive(Clone, Copy, PartialEq, Eq, Structural, Debug)]
pub enum PushFront {
    /// Load `head`.
    LoadHead { new: Handle },
    /// Point `new` at `onto`, the node that `head` referred to.
    SetNext { new: Handle, onto: Handle },
    /// Try to move `head` from `onto` to `new`.
    Link { new: Handle, onto: Handle },
    /// `new` is in front: note it as the `prev` of `onto`, if that has none.
    SetPrev { new: Handle, onto: Handle },
    /// Count the new element.
    Count,
    /// Nothing is left to do.
    Done,
}

/// Removing the frontmost element, one atomic access at a time.
///
/// Where `head` refers to a node that was put in front, that node is the
/// element: `head` moves on to its successor, and the node gives up its
/// payload and is retired. Otherwise `head` refers to the anchor, and the
/// element is the payload of its successor, which becomes the new anchor;
/// the node that is retired is the old anchor, which neither `head` nor
/// `tail` nor any `next` link of a node in reach leads to any more.
#[derive(Clone, Copy, PartialEq, Eq, Structural, Debug)]
pub enum PopFront {
    /// Load `head`.
    LoadHead,
    /// Read at which end `head` went in, and its `next` link.
    Inspect { head: Handle },
    /// `head` was put in front: try to move `head` from it to `next`.
    Unstack { head: Handle, next: Handle },
    /// `head` is off the node `head`: move its payload out.
    Take { head: Handle },
    /// `head` is the anchor: try to move `head` from it to `next`.
    Unlink { head: Handle, next: Handle },
    /// `head` has moved to `next`: load `tail`.
    LoadTail { head: Handle, next: Handle },
    /// `tail` still referred to the old anchor: help it on to `next`.
    Help { head: Handle, next: Handle },
    /// Move the payload out of `next`.
    Consume { head: Handle, next: Handle },
    /// Retire the node that `head` has left.
    Retire { head: Handle },
    /// Count the removal.
    Count,
    /// Nothing is left to do.
    Done,
}

impl PushBack {
    /// The access this state is about to make; `None` once done.
    pub open spec fn spec_action(self) -> Option<Action> {
        match self {
            PushBack::LoadTail { .. } => Some(Action::ProtectTail),
            PushBack::LoadNext { onto, .. } => Some(Action::ProtectNext { node: onto }),
            PushBack::Help { onto, next, .. } => Some(Action::AdvanceTail { from: onto, to: next }),
            PushBack::Link { new, onto } => Some(Action::LinkNext { node: onto, new }),
            PushBack::SetPrev { new, onto } => Some(Action::LinkPrev { node: new, new: onto }),
            PushBack::Swing { new, onto } => Some(Action::AdvanceTail { from: onto, to: new }),
            PushBack::Count => Some(Action::Increment),
            PushBack::Done => None,
        }
    }

    /// The state that follows when the access reports `event`. An event of a
    /// kind that the access cannot report leaves the state as it is.
    pub open spec fn spec_advance(self, event: Event) -> Self {
        match (self, event) {
            (PushBack::LoadTail { new }, Event::Loaded(Some(onto))) => PushBack::LoadNext {
                new,
                onto,
            },
            (PushBack::LoadNext { new, onto }, Event::Loaded(Some(next))) => PushBack::Help {
                new,
                onto,
                next,
            },
            (PushBack::LoadNext { new, onto }, Event::Loaded(None)) => PushBack::Link { new, onto },
            (PushBack::Help { new, .. }, Event::Exchanged(_)) => PushBack::LoadTail { new },
            (PushBack::Link { new, onto }, Event::Exchanged(true)) => PushBack::SetPrev {
                new,
                onto,
            },
            (PushBack::Link { new, .. }, Event::Exchanged(false)) => PushBack::LoadTail { new },
            (PushBack::SetPrev { new, onto }, Event::Exchanged(_)) => PushBack::Swing { new, onto },
            (PushBack::Swing { .. }, Event::Exchanged(_)) => PushBack::Count,
            (PushBack::Count, Event::Performed) => PushBack::Done,
            _ => self,
        }
    }

    /// The first state of appending the node `new`.
    pub fn start(new: Handle) -> (state: Self)
        ensures
            state == (PushBack::LoadTail { new }),
    {
        PushBack::LoadTail { new }
    }

    #[verifier::when_used_as_spec(spec_action)]
    pub fn action(self) -> (action: Option<Action>)
        ensures
            action == self.spec_action(),
    {
        match self {
            PushBack::LoadTail { .. } => Some(Action::ProtectTail),
            PushBack::LoadNext { onto, .. } => Some(Action::ProtectNext { node: onto }),
            PushBack::Help { onto, next, .. } => Some(Action::AdvanceTail { from: onto, to: next }),
            PushBack::Link { new, onto } => Some(Action::LinkNext { node: onto, new }),
            PushBack::SetPrev { new, onto } => Some(Action::LinkPrev { node: new, new: onto }),
            PushBack::Swing { new, onto } => Some(Action::AdvanceTail { from: onto, to: new }),
            PushBack::Count => Some(Action::Increment),
            PushBack::Done => None,
        }
    }

    #[verifier::when_used_as_spec(spec_advance)]
    pub fn advance(self, event: Event) -> (state: Self)
        ensures
            state == self.spec_advance(event),
    {
        match (self, event) {
            (PushBack::LoadTail { new }, Event::Loaded(Some(onto))) => PushBack::LoadNext {
                new,
                onto,
            },
            (PushBack::LoadNext { new, onto }, Event::Loaded(Some(next))) => PushBack::Help {
                new,
                onto,
                next,
            },
            (PushBack::LoadNext { new, onto }, Event::Loaded(None)) => PushBack::Link { new, onto },
            (PushBack::Help { new, .. }, Event::Exchanged(_)) => PushBack::LoadTail { new },
            (PushBack::Link { new, onto }, Event::Exchanged(true)) => PushBack::SetPrev {
                new,
                onto,
            },
            (PushBack::Link { new, .. }, Event::Exchanged(false)) => PushBack::LoadTail { new },
            (PushBack::SetPrev { new, onto }, Event::Exchanged(_)) => PushBack::Swing { new, onto },
            (PushBack::Swing { .. }, Event::Exchanged(_)) => PushBack::Count,
            (PushBack::Count, Event::Performed) => PushBack::Done,
            _ => self,
        }
    }
}

impl PushFront {
    /// The access this state is about to make; `None` once done.
    pub open spec fn spec_action(self) -> Option<Action> {
        match self {
            PushFront::LoadHead { .. } => Some(Action::ProtectHead),
            PushFront::SetNext { new, onto } => Some(Action::StoreNext { node: new, to: onto }),
            PushFront::Link { new, onto } => Some(Action::Stack { onto, new }),
            PushFront::SetPrev { new, onto } => Some(Action::LinkPrev { node: onto, new }),
            PushFront::Count => Some(Action::Increment),
            PushFront::Done => None,
        }
    }

    /// The state that follows when the access reports `event`. An event of a
    /// kind that the access cannot report leaves the state as it is.
    pub open spec fn spec_advance(self, event: Event) -> Self {
        match (self, event) {
            (PushFront::LoadHead { new }, Event::Loaded(Some(onto))) => PushFront::SetNext {
                new,
                onto,
            },
            (PushFront::SetNext { new, onto }, Event::Performed) => PushFront::Link { new, onto },
            (PushFront::Link { new, onto }, Event::Exchanged(true)) => PushFront::SetPrev {
                new,
                onto,
            },
            (PushFront::Link { new, .. }, Event::Exchanged(false)) => PushFront::LoadHead { new },
            (PushFront::SetPrev { .. }, Event::Exchanged(_)) => PushFront::Count,
            (PushFront::Count, Event::Performed) => PushFront::Done,
            _ => self,
        }
    }

    /// The first state of putting the node `new` in front.
    pub fn start(new: Handle) -> (state: Self)
        ensures
            state == (PushFront::LoadHead { new }),
    {
        PushFront::LoadHead { new }
    }

    #[verifier::when_used_as_spec(spec_action)]
    pub fn action(self) -> (action: Option<Action>)
        ensures
            action == self.spec_action(),
    {
        match self {
            PushFront::LoadHead { .. } => Some(Action::ProtectHead),
            PushFront::SetNext { new, onto } => Some(Action::StoreNext { node: new, to: onto }),
            PushFront::Link { new, onto } => Some(Action::Stack { onto, new }),
            PushFront::SetPrev { new, onto } => Some(Action::LinkPrev { node: onto, new }),
            PushFront::Count => Some(Action::Increment),
            PushFront::Done => None,
        }
    }

    #[verifier::when_used_as_spec(spec_advance)]
    pub fn advance(self, event: Event) -> (state: Self)
        ensures
            state == self.spec_advance(event),
    {
        match (self, event) {
            (PushFront::LoadHead { new }, Event::Loaded(Some(onto))) => PushFront::SetNext {
                new,
                onto,
            },
            (PushFront::SetNext { new, onto }, Event::Performed) => PushFront::Link { new, onto },
            (PushFront::Link { new, onto }, Event::Exchanged(true)) => PushFront::SetPrev {
                new,
                onto,
            },
            (PushFront::Link { new, .. }, Event::Exchanged(false)) => PushFront::LoadHead { new },
            (PushFront::SetPrev { .. }, Event::Exchanged(_)) => PushFront::Count,
            (PushFront::Count, Event::Performed) => PushFront::Done,
            _ => self,
        }
    }
}

impl PopFront {
    /// The access this state is about to make; `None` once done.
    pub open spec fn spec_action(self) -> Option<Action> {
        match self {
            PopFront::LoadHead => Some(Action::ProtectHead),
            PopFront::Inspect { head } => Some(Action::Inspect { node: head }),
            PopFront::Unstack { head, next } => Some(Action::Unstack { from: head, to: next }),
            PopFront::Take { head } => Some(Action::Consume { node: head }),
            PopFront::Unlink { head, next } => Some(Action::AdvanceHead { from: head, to: next }),
            PopFront::LoadTail { .. } => Some(Action::ProtectTail),
            PopFront::Help { head, next } => Some(Action::AdvanceTail { from: head, to: next }),
            PopFront::Consume { next, .. } => Some(Action::Consume { node: next }),
            PopFront::Retire { head } => Some(Action::Retire { node: head }),
            PopFront::Count => Some(Action::Decrement),
            PopFront::Done => None,
        }
    }

    /// The state that follows when the access reports `event`. An event of a
    /// kind that the access cannot report leaves the state as it is.
    pub open spec fn spec_advance(self, event: Event) -> Self {
        match (self, event) {
            (PopFront::LoadHead, Event::Loaded(Some(head))) => PopFront::Inspect { head },
            (PopFront::Inspect { head }, Event::Found { front: true, next: Some(next) }) => {
                PopFront::Unstack { head, next }
            },
            (PopFront::Inspect { .. }, Event::Found { front: true, next: None }) => {
                PopFront::LoadHead
            },
            (PopFront::Inspect { head }, Event::Found { front: false, next: Some(next) }) => {
                PopFront::Unlink { head, next }
            },
            (PopFront::Inspect { .. }, Event::Found { front: false, next: None }) => {
                PopFront::Done
            },
            (PopFront::Unstack { head, .. }, Event::Exchanged(true)) => PopFront::Take { head },
            (PopFront::Unstack { .. }, Event::Exchanged(false)) => PopFront::LoadHead,
            (PopFront::Take { head }, Event::Performed) => PopFront::Retire { head },
            (PopFront::Unlink { head, next }, Event::Exchanged(true)) => PopFront::LoadTail {
                head,
                next,
            },
            (PopFront::Unlink { .. }, Event::Exchanged(false)) => PopFront::LoadHead,
            (PopFront::LoadTail { head, next }, Event::Loaded(Some(tail))) => if tail == head {
                PopFront::Help { head, next }
            } else {
                PopFront::Consume { head, next }
            },
            (PopFront::Help { head, next }, Event::Exchanged(_)) => PopFront::Consume {
                head,
                next,
            },
            (PopFront::Consume { head, .. }, Event::Performed) => PopFront::Retire { head },
            (PopFront::Retire { .. }, Event::Performed) => PopFront::Count,
            (PopFront::Count, Event::Performed) => PopFront::Done,
            _ => self,
        }
    }

    /// The first state of removing the frontmost element.
    pub fn start() -> (state: Self)
        ensures
            state == (PopFront::LoadHead),
    {
        PopFront::LoadHead
    }

    #[verifier::when_used_as_spec(spec_action)]
    pub fn action(self) -> (action: Option<Action>)
        ensures
            action == self.spec_action(),
    {
        match self {
            PopFront::LoadHead => Some(Action::ProtectHead),
            PopFront::Inspect { head } => Some(Action::Inspect { node: head }),
            PopFront::Unstack { head, next } => Some(Action::Unstack { from: head, to: next }),
            PopFront::Take { head } => Some(Action::Consume { node: head }),
            PopFront::Unlink { head, next } => Some(Action::AdvanceHead { from: head, to: next }),
            PopFront::LoadTail { .. } => Some(Action::ProtectTail),
            PopFront::Help { head, next } => Some(Action::AdvanceTail { from: head, to: next }),
            PopFront::Consume { next, .. } => Some(Action::Consume { node: next }),
            PopFront::Retire { head } => Some(Action::Retire { node: head }),
            PopFront::Count => Some(Action::Decrement),
            PopFront::Done => None,
        }
    }

    #[verifier::when_used_as_spec(spec_advance)]
    pub fn advance(self, event: Event) -> (state: Self)
        ensures
            state == self.spec_advance(event),
    {
        match (self, event) {
            (PopFront::LoadHead, Event::Loaded(Some(head))) => PopFront::Inspect { head },
            (PopFront::Inspect { head }, Event::Found { front: true, next: Some(next) }) => {
                PopFront::Unstack { head, next }
            },
            (PopFront::Inspect { .. }, Event::Found { front: true, next: None }) => {
                PopFront::LoadHead
            },
            (PopFront::Inspect { head }, Event::Found { front: false, next: Some(next) }) => {
                PopFront::Unlink { head, next }
            },
            (PopFront::Inspect { .. }, Event::Found { front: false, next: None }) => {
                PopFront::Done
            },
            (PopFront::Unstack { head, .. }, Event::Exchanged(true)) => PopFront::Take { head },
            (PopFront::Unstack { .. }, Event::Exchanged(false)) => PopFront::LoadHead,
            (PopFront::Take { head }, Event::Performed) => PopFront::Retire { head },
            (PopFront::Unlink { head, next }, Event::Exchanged(true)) => PopFront::LoadTail {
                head,
                next,
            },
            (PopFront::Unlink { .. }, Event::Exchanged(false)) => PopFront::LoadHead,
            (PopFront::LoadTail { head, next }, Event::Loaded(Some(tail))) => if tail == head {
                PopFront::Help { head, next }
            } else {
                PopFront::Consume { head, next }
            },
            (PopFront::Help { head, next }, Event::Exchanged(_)) => PopFront::Consume {
                head,
                next,
            },
            (PopFront::Consume { head, .. }, Event::Performed) => PopFront::Retire { head },
            (PopFront::Retire { .. }, Event::Performed) => PopFront::Count,
            (PopFront::Count, Event::Performed) => PopFront::Done,
            _ => self,
        }
    }
}

/// An operation in flight: one of the three machines.
#[derive(Clone, Copy, PartialEq, Eq, Structural, Debug)]
pub enum Operation {
    /// An append at the back.
    Back(PushBack),
    /// An insertion at the front.
    Front(PushFront),
    /// A removal from the front.
    Pop(PopFront),
}

impl Operation {
    /// The access the operation is about to make; `None` once it is done.
    pub open spec fn spec_action(self) -> Option<Action> {
        match self {
            Operation::Back(state) => state.spec_action(),
            Operation::Front(state) => state.spec_action(),
            Operation::Pop(state) => state.spec_action(),
        }
    }

    /// The operation after its access has reported `event`.
    pub open spec fn spec_advance(self, event: Event) -> Self {
        match self {
            Operation::Back(state) => Operation::Back(state.spec_advance(event)),
            Operation::Front(state) => Operation::Front(state.spec_advance(event)),
            Operation::Pop(state) => Operation::Pop(state.spec_advance(event)),
        }
    }

    /// Whether nothing is left to do.
    pub open spec fn done(self) -> bool {
        self.spec_action() is None
    }

    #[verifier::when_used_as_spec(spec_action)]
    pub fn action(self) -> (action: Option<Action>)
        ensures
            action == self.spec_action(),
    {
        match self {
            Operation::Back(state) => state.action(),
            Operation::Front(state) => state.action(),
            Operation::Pop(state) => state.action(),
        }
    }

    #[verifier::when_used_as_spec(spec_advance)]
    pub fn advance(self, event: Event) -> (operation: Self)
        ensures
            operation == self.spec_advance(event),
    {
        match self {
            Operation::Back(state) => Operation::Back(state.advance(event)),
            Operation::Front(state) => Operation::Front(state.advance(event)),
            Operation::Pop(state) => Operation::Pop(state.advance(event)),
        }
    }
}

/// Where a run of an operation has arrived: the shared state, and the payload
/// moved out on the way.
pub struct Outcome<T> {
    /// The shared state at the end of the run.
    pub memory: Memory<T>,
    /// The payload in hand at the end of the run.
    pub taken: Option<T>,
}

impl<T> Memory<T> {
    /// The state after `operation` has made its next access. A finished
    /// operation changes nothing.
    pub open spec fn step(self, operation: Operation) -> Self {
        match operation.spec_action() {
            Some(action) => self.apply(action),
            None => self,
        }
    }

    /// The operation after it has made its next access in this state.
    pub open spec fn resume(self, operation: Operation) -> Operation {
        match operation.spec_action() {
            Some(action) => operation.spec_advance(self.answer(action)),
            None => operation,
        }
    }

    /// The payload that the operation's next access moves out, if any.
    pub open spec fn yields(self, operation: Operation) -> Option<T> {
        match operation.spec_action() {
            Some(action) => self.gives(action),
            None => None,
        }
    }

    /// Whether `operation`, run alone from this state, is done after at most
    /// `fuel` accesses, each of them admitted.
    pub open spec fn halts(self, operation: Operation, fuel: nat) -> bool
        decreases fuel,
    {
        match operation.spec_action() {
            None => true,
            Some(action) => fuel > 0 && self.admits(action) && self.step(operation).halts(
                self.resume(operation),
                (fuel - 1) as nat,
            ),
        }
    }

    /// Where `operation` arrives when it runs alone from this state for at
    /// most `fuel` accesses, having `taken` in hand: the last payload moved
    /// out replaces what was in hand.
    pub open spec fn run(self, operation: Operation, fuel: nat, taken: Option<T>) -> Outcome<T>
        decreases fuel,
    {
        if operation.done() || fuel == 0 {
            Outcome { memory: self, taken }
        } else {
            self.step(operation).run(
                self.resume(operation),
                (fuel - 1) as nat,
                if self.yields(operation) is Some {
                    self.yields(operation)
                } else {
                    taken
                },
            )
        }
    }
}

} // verus!
