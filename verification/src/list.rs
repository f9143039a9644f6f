use vstd::prelude::*;
use crate::action::{Action, Event};
use crate::machine::{Operation, Outcome, PopFront, PushBack, PushFront};
use crate::memory::Memory;
use crate::node::{Handle, Node};

verus! {

/// A doubly-linked list with a sentinel: values are inserted at either end
/// and removed from the front.
///
/// The list owns every node it has allocated; a handle is a node's index.
/// `head` refers to the frontmost node: the node last put in front that is
/// still in the list, or else the anchor, the node in front of the first
/// appended element. `tail` refers to the last node or, while it lags, to
/// one in front of it. A node that is retired stays where it is: the list
/// records the retirement and frees nothing.
///
/// The whole operations (`push_back`, `push_front`, `pop_front`) take a list
/// at rest to a list at rest. The single accesses (`perform`, `step`) and
/// `link_boxed` say exactly what they change and leave it to the caller to
/// finish what they began.
pub struct LinkedList<T> {
    head: Handle,
    tail: Handle,
    len: usize,
    nodes: Vec<Node<T>>,
    retired: Vec<Handle>,
    order: Ghost<Seq<Handle>>,
    anchor: Ghost<Handle>,
    stack: Ghost<Seq<Handle>>,
    spent: Ghost<Seq<Handle>>,
}

impl<T> View for LinkedList<T> {
    type V = Seq<T>;

    /// The values that the list holds, front to back.
    open spec fn view(&self) -> Seq<T> {
        self.memory().elements()
    }
}

impl<T> LinkedList<T> {
    /// The shared state that the atomic accesses work on.
    pub closed spec fn memory(&self) -> Memory<T> {
        Memory {
            nodes: self.nodes@,
            head: self.head,
            tail: self.tail,
            len: self.len,
            retired: self.retired@,
            order: self.order@,
            anchor: self.anchor@,
            stack: self.stack@,
            spent: self.spent@,
        }
    }

    /// The list is at rest and in order: see [`Memory::wf`].
    pub open spec fn wf(&self) -> bool {
        self.memory().wf()
    }

    /// An empty list: one sentinel, which both `head` and `tail` refer to.
    pub fn new() -> (list: Self)
        ensures
            list.wf(),
            list.memory() == Memory::<T>::fresh(),
            list@ == Seq::<T>::empty(),
    {
        let mut nodes: Vec<Node<T>> = Vec::new();
        nodes.push(Node::sentinel());
        let order: Ghost<Seq<Handle>> = Ghost(Seq::empty().push(0usize));
        let list = LinkedList {
            head: 0,
            tail: 0,
            len: 0,
            nodes,
            retired: Vec::new(),
            order,
            anchor: Ghost(0usize),
            stack: Ghost(Seq::empty()),
            spent: Ghost(Seq::empty()),
        };
        proof {
            Memory::<T>::lemma_fresh();
            assert(list.memory().nodes =~= Memory::<T>::fresh().nodes);
            assert(list.memory().retired =~= Memory::<T>::fresh().retired);
            assert(list.memory().order =~= Memory::<T>::fresh().order);
        }
        list
    }

    /// The value of the length counter, which on a list at rest is the
    /// number of values held.
    pub fn len(&self) -> (count: usize)
        ensures
            count == self.memory().len,
            self.wf() ==> count == self@.len(),
    {
        proof {
            if self.wf() {
                self.memory().lemma_counted();
            }
        }
        self.len
    }

    /// Allocates `node` and returns its handle. The node is not linked: the
    /// list is at rest again once an insertion has linked it.
    pub fn link_boxed(&mut self, node: Node<T>) -> (handle: Handle)
        ensures
            handle == old(self).memory().nodes.len(),
            final(self).memory() == old(self).memory().allocate(node),
            final(self).memory().nodes.len() <= usize::MAX,
    {
        self.nodes.push(node);
        let count: usize = self.nodes.len();
        count - 1
    }

    /// Appends `t` at the back: it is the last of the values held
    /// afterwards, and the counter goes up by one.
    pub fn push_back(&mut self, t: T)
        requires
            old(self).wf(),
        ensures
            final(self).wf(),
            final(self)@ == old(self)@.push(t),
            final(self).memory() == old(self).memory().pushed_back(t),
    {
        let ghost before = self.memory();
        let new = self.link_boxed(Node::new(t));
        proof {
            before.lemma_push_back_runs(t);
            before.lemma_pushed_back(t);
        }
        let _ = self.complete(Operation::Back(PushBack::start(new)), Ghost(before.back_fuel()));
    }

    /// Puts `t` in front: it is the first of the values held afterwards,
    /// and the counter goes up by one.
    pub fn push_front(&mut self, t: T)
        requires
            old(self).wf(),
        ensures
            final(self).wf(),
            final(self)@ == seq![t] + old(self)@,
            final(self).memory() == old(self).memory().pushed_front(t),
    {
        let ghost before = self.memory();
        let new = self.link_boxed(Node::new_front(t));
        proof {
            before.lemma_push_front_runs(t);
            before.lemma_pushed_front(t);
        }
        let _ = self.complete(Operation::Front(PushFront::start(new)), Ghost(5));
    }

    /// Removes from the front. Where the list holds a value, the first is
    /// returned, the others stay in their order, the counter goes down by
    /// one, and the node that has left the list is retired. Where it holds
    /// none, nothing is returned and nothing changes.
    pub fn pop_front(&mut self) -> (front: Option<T>)
        requires
            old(self).wf(),
        ensures
            final(self).wf(),
            front == (if old(self)@.len() > 0 {
                Some(old(self)@[0])
            } else {
                None
            }),
            final(self)@ == (if old(self)@.len() > 0 {
                old(self)@.drop_first()
            } else {
                old(self)@
            }),
            final(self).memory() == (if old(self)@.len() > 0 {
                old(self).memory().popped()
            } else {
                old(self).memory()
            }),
    {
        let ghost before = self.memory();
        proof {
            before.lemma_pop_front_runs();
            if before.elements().len() > 0 {
                before.lemma_popped();
            }
        }
        self.complete(Operation::Pop(PopFront::start()), Ghost(9))
    }

    /// The handle of the frontmost node, the node that `head` refers to.
    pub fn head(&self) -> (handle: Handle)
        ensures
            handle == self.memory().head,
    {
        self.head
    }

    /// The handle of the node that `tail` refers to.
    pub fn tail(&self) -> (handle: Handle)
        ensures
            handle == self.memory().tail,
    {
        self.tail
    }

    /// The node that `handle` names, if it has been allocated.
    pub fn node(&self, handle: Handle) -> (node: Option<&Node<T>>)
        ensures
            node == (if self.memory().has(handle) {
                Some(&self.memory().nodes[handle as int])
            } else {
                None
            }),
    {
        if handle < self.nodes.len() {
            Some(&self.nodes[handle])
        } else {
            None
        }
    }

    /// The handles that have been retired, oldest first.
    pub fn retired(&self) -> (handles: &Vec<Handle>)
        ensures
            handles@ == self.memory().retired,
    {
        &self.retired
    }

    /// Performs one atomic access: returns what it reports, and the payload
    /// it has moved out, if any.
    pub fn perform(&mut self, action: Action) -> (result: (Event, Option<T>))
        ensures
            final(self).memory() == old(self).memory().apply(action),
            result.0 == old(self).memory().answer(action),
            result.1 == old(self).memory().gives(action),
    {
        let count: usize = self.nodes.len();
        let result = match action {
            Action::ProtectHead => (Event::Loaded(Some(self.head)), None),
            Action::ProtectTail => (Event::Loaded(Some(self.tail)), None),
            Action::ProtectNext { node } => if node < count {
                (Event::Loaded(self.nodes[node].next), None)
            } else {
                (Event::Loaded(None), None)
            },
            Action::Inspect { node } => if node < count {
                (Event::Found { front: self.nodes[node].front, next: self.nodes[node].next }, None)
            } else {
                (Event::Found { front: false, next: None }, None)
            },
            Action::AdvanceHead { from, to } => if to < count && self.head == from {
                self.head = to;
                proof {
                    self.anchor = Ghost(to);
                }
                (Event::Exchanged(true), None)
            } else {
                (Event::Exchanged(false), None)
            },
            Action::Stack { onto, new } => if new < count && self.head == onto {
                self.head = new;
                proof {
                    self.stack = Ghost(seq![new] + self.stack@);
                }
                (Event::Exchanged(true), None)
            } else {
                (Event::Exchanged(false), None)
            },
            Action::Unstack { from, to } => if to < count && self.head == from {
                self.head = to;
                proof {
                    self.stack = Ghost(self.stack@.drop_first());
                    self.spent = Ghost(self.spent@.push(from));
                }
                (Event::Exchanged(true), None)
            } else {
                (Event::Exchanged(false), None)
            },
            Action::AdvanceTail { from, to } => if to < count && self.tail == from {
                self.tail = to;
                (Event::Exchanged(true), None)
            } else {
                (Event::Exchanged(false), None)
            },
            Action::LinkNext { node, new } => if node < count && new < count
                && self.nodes[node].next.is_none() {
                self.nodes[node].next = Some(new);
                proof {
                    self.order = Ghost(self.order@.push(new));
                }
                (Event::Exchanged(true), None)
            } else {
                (Event::Exchanged(false), None)
            },
            Action::LinkPrev { node, new } => if node < count && new < count
                && self.nodes[node].prev.is_none() {
                self.nodes[node].prev = Some(new);
                (Event::Exchanged(true), None)
            } else {
                (Event::Exchanged(false), None)
            },
            Action::StoreNext { node, to } => {
                if node < count && to < count {
                    self.nodes[node].next = Some(to);
                }
                (Event::Performed, None)
            },
            Action::Consume { node } => if node < count {
                let payload = self.nodes[node].inner.take();
                (Event::Performed, payload)
            } else {
                (Event::Performed, None)
            },
            Action::Retire { node } => {
                if node < count {
                    self.retired.push(node);
                }
                (Event::Performed, None)
            },
            Action::Increment => {
                self.len = self.len.wrapping_add(1);
                (Event::Performed, None)
            },
            Action::Decrement => {
                self.len = self.len.wrapping_sub(1);
                (Event::Performed, None)
            },
        };
        assert(self.memory().nodes =~= old(self).memory().apply(action).nodes);
        result
    }

    /// Lets `operation` make its next access: returns the operation as it
    /// goes on, and the payload the access has moved out, if any. A finished
    /// operation is returned as it is.
    pub fn step(&mut self, operation: Operation) -> (result: (Operation, Option<T>))
        ensures
            final(self).memory() == old(self).memory().step(operation),
            result.0 == old(self).memory().resume(operation),
            result.1 == old(self).memory().yields(operation),
    {
        match operation.action() {
            Some(action) => {
                let (event, payload) = self.perform(action);
                (operation.advance(event), payload)
            },
            None => (operation, None),
        }
    }

    /// Runs `operation` until it is done and returns the payload it has
    /// moved out.
    fn complete(&mut self, operation: Operation, Ghost(fuel): Ghost<nat>) -> (taken: Option<T>)
        requires
            old(self).memory().halts(operation, fuel),
        ensures
            (Outcome { memory: final(self).memory(), taken }) == old(self).memory().run(
                operation,
                fuel,
                None,
            ),
    {
        let mut current = operation;
        let mut taken: Option<T> = None;
        let ghost mut left: nat = fuel;
        while current.action().is_some()
            invariant
                self.memory().halts(current, left),
                self.memory().run(current, left, taken) == old(self).memory().run(
                    operation,
                    fuel,
                    None,
                ),
            decreases left,
        {
            let (next, payload) = self.step(current);
            if payload.is_some() {
                taken = payload;
            }
            current = next;
            proof {
                left = (left - 1) as nat;
            }
        }
        taken
    }
}

} // verus!
