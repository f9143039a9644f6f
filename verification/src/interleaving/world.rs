use vstd::prelude::*;
use vstd::multiset::Multiset;
use crate::action::Action;
use crate::held::{held, lemma_held_emptied, lemma_held_push};
use crate::machine::{Operation, PopFront, PushBack, PushFront};
use crate::memory::Memory;
use crate::node::{Handle, Node};

verus! {

/// Several operations at work on one list at once: the shared state, what
/// each thread's operation is about to do, and a record of the values that
/// went in and came out.
pub struct World<T> {
    /// The shared state of the list.
    pub memory: Memory<T>,
    /// The operation of each thread; a thread whose operation is done is idle.
    pub threads: Seq<Operation>,
    /// The values given to insertions so far.
    pub inserted: Multiset<T>,
    /// The values handed out by removals so far.
    pub handed: Multiset<T>,
    /// For each thread, how many nodes had been retired when its operation
    /// began: those may have been freed since.
    pub since: Seq<nat>,
    /// The values given to appends, in the order of the calls.
    pub called: Seq<T>,
    /// The thread of each of those calls.
    pub callers: Seq<int>,
    /// The thread that linked each of the values linked.
    pub linkers: Seq<int>,
    /// The values of the nodes that appends have linked, in the order of
    /// linking.
    pub linked: Seq<T>,
    /// The values that removals have won by moving the anchor, in that
    /// order.
    pub won: Seq<T>,
    /// The values that removals have moved out of their nodes, in that order.
    pub delivered: Seq<T>,
}

/// One turn of a scheduler: a thread calls an operation, or the operation of
/// a thread makes its next atomic access.
pub enum Turn<T> {
    /// `thread` calls for `value` to be appended at the back.
    Append { thread: int, value: T },
    /// `thread` calls for `value` to be put in front.
    Prepend { thread: int, value: T },
    /// `thread` calls for a removal from the front.
    Remove { thread: int },
    /// The operation of `thread` makes its next access.
    Step { thread: int },
}

impl<T> World<T> {
    /// A new list, and `threads` idle threads.
    pub open spec fn initial(threads: nat) -> Self {
        World {
            memory: Memory::fresh(),
            threads: Seq::new(threads, |t: int| Operation::Pop(PopFront::Done)),
            inserted: Multiset::empty(),
            handed: Multiset::empty(),
            since: Seq::new(threads, |t: int| 0nat),
            called: Seq::empty(),
            callers: Seq::empty(),
            linkers: Seq::empty(),
            linked: Seq::empty(),
            won: Seq::empty(),
            delivered: Seq::empty(),
        }
    }

    /// Whether `thread` is one of the threads.
    pub open spec fn runs(self, thread: int) -> bool {
        0 <= thread < self.threads.len()
    }

    /// Whether `thread` is one of the threads and has no operation at work.
    pub open spec fn idle(self, thread: int) -> bool {
        self.runs(thread) && self.threads[thread].done()
    }

    /// Whether every thread is idle.
    pub open spec fn at_rest(self) -> bool {
        forall|t: int| 0 <= t < self.threads.len() ==> (#[trigger] self.threads[t]).done()
    }

    /// The handle that the next allocation returns.
    pub open spec fn fresh_handle(self) -> Handle {
        self.memory.nodes.len() as Handle
    }

    /// The world after `turn`. A call by a thread that is busy or unknown,
    /// an insertion for which no handle is left, and a step of an unknown
    /// thread change nothing. A call allocates the node of an insertion,
    /// notes how many nodes are retired, and puts the operation in its first
    /// state; a step lets the operation make one access.
    pub open spec fn next(self, turn: Turn<T>) -> Self {
        match turn {
            Turn::Append { thread, value } => if self.idle(thread) && self.memory.nodes.len()
                < usize::MAX {
                World {
                    memory: self.memory.allocate(Node::holding(value)),
                    threads: self.threads.update(
                        thread,
                        Operation::Back(PushBack::LoadTail { new: self.fresh_handle() }),
                    ),
                    inserted: self.inserted.insert(value),
                    since: self.since.update(thread, self.memory.retired.len()),
                    called: self.called.push(value),
                    callers: self.callers.push(thread),
                    ..self
                }
            } else {
                self
            },
            Turn::Prepend { thread, value } => if self.idle(thread) && self.memory.nodes.len()
                < usize::MAX {
                World {
                    memory: self.memory.allocate(Node::heading(value)),
                    threads: self.threads.update(
                        thread,
                        Operation::Front(PushFront::LoadHead { new: self.fresh_handle() }),
                    ),
                    inserted: self.inserted.insert(value),
                    since: self.since.update(thread, self.memory.retired.len()),
                    ..self
                }
            } else {
                self
            },
            Turn::Remove { thread } => if self.idle(thread) {
                World {
                    threads: self.threads.update(thread, Operation::Pop(PopFront::LoadHead)),
                    since: self.since.update(thread, self.memory.retired.len()),
                    ..self
                }
            } else {
                self
            },
            Turn::Step { thread } => if self.runs(thread) {
                World {
                    memory: self.memory.step(self.threads[thread]),
                    threads: self.threads.update(
                        thread,
                        self.memory.resume(self.threads[thread]),
                    ),
                    handed: match self.memory.yields(self.threads[thread]) {
                        Some(value) => self.handed.insert(value),
                        None => self.handed,
                    },
                    linked: match self.memory.links(self.threads[thread]) {
                        Some(value) => self.linked.push(value),
                        None => self.linked,
                    },
                    linkers: match self.memory.links(self.threads[thread]) {
                        Some(_) => self.linkers.push(thread),
                        None => self.linkers,
                    },
                    won: match self.memory.wins(self.threads[thread]) {
                        Some(value) => self.won.push(value),
                        None => self.won,
                    },
                    delivered: match self.memory.yields(self.threads[thread]) {
                        Some(value) => self.delivered.push(value),
                        None => self.delivered,
                    },
                    ..self
                }
            } else {
                self
            },
        }
    }

    /// The world after `turns`, one after the other.
    pub open spec fn execute(self, turns: Seq<Turn<T>>) -> Self
        decreases turns.len(),
    {
        if turns.len() == 0 {
            self
        } else {
            self.execute(turns.drop_last()).next(turns.last())
        }
    }
}

impl<T> Memory<T> {
    /// The value that the operation's next access links into the chain: the
    /// payload of the node of an append whose link succeeds.
    pub open spec fn links(self, operation: Operation) -> Option<T> {
        match operation {
            Operation::Back(PushBack::Link { new, onto }) => if self.has(new) && self.has(onto)
                && self.nodes[onto as int].next is None {
                self.nodes[new as int].inner
            } else {
                None
            },
            _ => None,
        }
    }

    /// The value that the operation's next access wins: the payload of the
    /// successor to which a removal succeeds in moving `head`.
    pub open spec fn wins(self, operation: Operation) -> Option<T> {
        match operation {
            Operation::Pop(PopFront::Unlink { head, next }) => if self.has(next) && self.head
                == head {
                self.nodes[next as int].inner
            } else {
                None
            },
            _ => None,
        }
    }

    /// The payload slot of every allocated node, by handle.
    pub open spec fn all_slots(self) -> Seq<Option<T>> {
        Seq::new(self.nodes.len(), |h: int| self.nodes[h].inner)
    }

    /// The values in the nodes, linked or not.
    pub open spec fn stock(self) -> Multiset<T> {
        held(self.all_slots())
    }

    /// An access takes out of the stock what it gives, and nothing else.
    pub proof fn lemma_stock_after(self, operation: Operation)
        ensures
            self.step(operation).stock() == (match self.yields(operation) {
                Some(value) => self.stock().remove(value),
                None => self.stock(),
            }),
            self.yields(operation) matches Some(value) ==> self.stock().count(value) > 0,
    {
        let after = self.step(operation);
        match operation.spec_action() {
            Some(Action::Consume { node }) => {
                if self.has(node) {
                    assert(after.all_slots() =~= self.all_slots().update(node as int, None));
                    lemma_held_emptied(self.all_slots(), node as int);
                } else {
                    assert(after.all_slots() =~= self.all_slots());
                }
            },
            _ => {
                assert(after.all_slots() =~= self.all_slots());
            },
        }
    }

    /// An allocation adds the new node's value to the stock.
    pub proof fn lemma_stock_allocated(self, value: T, front: bool)
        ensures
            self.allocate(
                if front {
                    Node::heading(value)
                } else {
                    Node::holding(value)
                },
            ).stock() == self.stock().insert(value),
    {
        let after = self.allocate(
            if front {
                Node::heading(value)
            } else {
                Node::holding(value)
            },
        );
        assert(after.all_slots() =~= self.all_slots().push(Some(value)));
        lemma_held_push(self.all_slots(), Some(value));
    }
}

impl<T> World<T> {
    /// The values in the nodes together with the values handed out are the
    /// values inserted.
    pub open spec fn balanced(self) -> bool {
        self.memory.stock().add(self.handed) == self.inserted
    }

    /// A turn keeps the balance.
    pub proof fn lemma_turn_keeps_balance(self, turn: Turn<T>)
        requires
            self.balanced(),
        ensures
            self.next(turn).balanced(),
    {
        let after = self.next(turn);
        match turn {
            Turn::Append { value, .. } => {
                self.memory.lemma_stock_allocated(value, false);
                assert(after.memory.stock().add(after.handed) =~= after.inserted);
            },
            Turn::Prepend { value, .. } => {
                self.memory.lemma_stock_allocated(value, true);
                assert(after.memory.stock().add(after.handed) =~= after.inserted);
            },
            Turn::Remove { .. } => {},
            Turn::Step { thread } => {
                if self.runs(thread) {
                    self.memory.lemma_stock_after(self.threads[thread]);
                    assert(after.memory.stock().add(after.handed) =~= after.inserted);
                }
            },
        }
    }
}

} // verus!
