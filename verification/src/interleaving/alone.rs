use vstd::prelude::*;
use crate::interleaving::world::{Turn, World};
use crate::machine::{Operation, PopFront, PushBack, PushFront};
use crate::memory::Memory;

verus! {

impl<T> Memory<T> {
    /// An operation that fits makes no access that the state does not
    /// admit: every handle it uses names an allocated node.
    pub proof fn lemma_fits_admits(self, operation: Operation)
        requires
            self.threaded(),
            self.fits(operation),
        ensures
            operation.spec_action() matches Some(action) ==> self.admits(action),
    {
        match operation {
            Operation::Back(PushBack::LoadNext { onto, .. }) => {
                self.lemma_sort_threaded(onto);
            },
            Operation::Back(PushBack::Help { next, .. }) => {
                self.lemma_sort_threaded(next);
            },
            Operation::Back(PushBack::Link { onto, .. }) => {
                self.lemma_sort_threaded(onto);
            },
            Operation::Back(PushBack::SetPrev { new, onto }) => {
                self.lemma_sort_threaded(onto);
                self.lemma_sort_threaded(new);
            },
            Operation::Back(PushBack::Swing { new, .. }) => {
                self.lemma_sort_threaded(new);
            },
            Operation::Pop(PopFront::Inspect { head }) => {
                self.lemma_sort_threaded(head);
            },
            Operation::Pop(PopFront::Take { head }) => {
                self.lemma_sort_threaded(head);
            },
            Operation::Pop(PopFront::Unlink { next, .. }) => {
                self.lemma_sort_threaded(next);
            },
            Operation::Pop(PopFront::Help { next, .. }) => {
                self.lemma_sort_threaded(next);
            },
            Operation::Pop(PopFront::Consume { next, .. }) => {
                self.lemma_sort_threaded(next);
            },
            Operation::Pop(PopFront::Retire { head }) => {
                self.lemma_sort_threaded(head);
            },
            _ => {},
        }
    }

    /// The accesses that an append needs from loading `tail` when no other
    /// operation acts: six where `tail` refers to the last node, and three
    /// more to help it there where it lags.
    pub open spec fn distance_from_tail(self) -> nat {
        if self.rear() == self.order.len() - 1 {
            6
        } else {
            9
        }
    }

    /// The accesses that a removal needs from loading `head` when no other
    /// operation acts: six where `head` refers to a node that was put in
    /// front, two where it refers to an anchor without successor, eight
    /// otherwise.
    pub open spec fn distance_from_head(self) -> nat {
        if self.nodes[self.head as int].front {
            6
        } else if self.nodes[self.head as int].next is None {
            2
        } else {
            8
        }
    }

    /// The accesses that `operation` needs to be done when no other
    /// operation acts.
    pub open spec fn distance(self, operation: Operation) -> nat {
        match operation {
            Operation::Back(PushBack::LoadTail { .. }) => self.distance_from_tail(),
            Operation::Back(PushBack::LoadNext { onto, .. }) => if self.nodes[onto as int].next is None {
                5
            } else if self.tail == onto {
                8
            } else {
                2 + self.distance_from_tail()
            },
            Operation::Back(PushBack::Help { onto, .. }) => if self.tail == onto {
                7
            } else {
                1 + self.distance_from_tail()
            },
            Operation::Back(PushBack::Link { onto, .. }) => if self.nodes[onto as int].next is None {
                4
            } else {
                1 + self.distance_from_tail()
            },
            Operation::Back(PushBack::SetPrev { .. }) => 3,
            Operation::Back(PushBack::Swing { .. }) => 2,
            Operation::Back(PushBack::Count) => 1,
            Operation::Front(PushFront::LoadHead { .. }) => 5,
            Operation::Front(PushFront::SetNext { onto, .. }) => if self.head == onto {
                4
            } else {
                7
            },
            Operation::Front(PushFront::Link { onto, .. }) => if self.head == onto {
                3
            } else {
                6
            },
            Operation::Front(PushFront::SetPrev { .. }) => 2,
            Operation::Front(PushFront::Count) => 1,
            Operation::Pop(PopFront::LoadHead) => self.distance_from_head(),
            Operation::Pop(PopFront::Inspect { head }) => if self.head == head {
                (self.distance_from_head() - 1) as nat
            } else if !self.nodes[head as int].front && self.nodes[head as int].next is None {
                1
            } else {
                2 + self.distance_from_head()
            },
            Operation::Pop(PopFront::Unstack { head, .. }) => if self.head == head {
                4
            } else {
                1 + self.distance_from_head()
            },
            Operation::Pop(PopFront::Take { .. }) => 3,
            Operation::Pop(PopFront::Unlink { head, .. }) => if self.head == head {
                6
            } else {
                1 + self.distance_from_head()
            },
            Operation::Pop(PopFront::LoadTail { .. }) => 5,
            Operation::Pop(PopFront::Help { .. }) => 4,
            Operation::Pop(PopFront::Consume { .. }) => 3,
            Operation::Pop(PopFront::Retire { .. }) => 2,
            Operation::Pop(PopFront::Count) => 1,
            _ => 0,
        }
    }
}

impl<T> World<T> {
    /// An access brings the operation that makes it closer to its end.
    #[verifier::rlimit(100)]
    #[verifier::spinoff_prover]
    pub proof fn lemma_step_comes_closer(self, thread: int)
        requires
            self.coherent(),
            self.runs(thread),
            !self.threads[thread].done(),
        ensures
            self.next(Turn::Step { thread }).memory.distance(
                self.next(Turn::Step { thread }).threads[thread],
            ) < self.memory.distance(self.threads[thread]),
    {
        let m = self.memory;
        let after = self.next(Turn::Step { thread });
        let n = after.memory;
        let operation = self.threads[thread];
        assert(m.fits(operation));
        m.lemma_fits_admits(operation);
        m.lemma_head();
        let r = m.rear();
        let a = m.pivot();
        assert(m.at(r).next == m.after(r));
        assert(m.at(a).next == m.after(a));
        if m.stack.len() > 0 {
            assert(m.up(0).next == Some(m.below(0)));
            if m.stack.len() > 1 {
                assert(m.has(m.stack[1]));
            }
        }
        match operation {
            Operation::Back(PushBack::LoadNext { onto, .. }) => {
                m.lemma_position_of(onto);
                assert(m.at(m.position(onto)).next == m.after(m.position(onto)));
            },
            Operation::Back(PushBack::Help { onto, next, .. }) => {
                m.lemma_position_of(onto);
                m.lemma_position_of(next);
                if m.tail == onto {
                    assert(n.tail == next);
                    n.lemma_position(m.position(next));
                }
            },
            Operation::Back(PushBack::Link { onto, .. }) => {
                m.lemma_position_of(onto);
            },
            Operation::Pop(PopFront::Inspect { head }) => {
                m.lemma_sort_threaded(head);
                if m.order.contains(head) {
                    m.lemma_position_of(head);
                    assert(m.at(m.position(head)).next == m.after(m.position(head)));
                } else if m.stack.contains(head) {
                    let j = choose|j: int| 0 <= j < m.stack.len() && m.stack[j] == head;
                    assert(m.up(j).next == Some(m.below(j)));
                } else {
                    let j = choose|j: int| 0 <= j < m.spent.len() && m.spent[j] == head;
                    assert(m.has(m.nodes[m.spent[j] as int].next->0));
                }
            },
            Operation::Pop(PopFront::Unlink { head, next }) => {
                m.lemma_position_of(head);
                m.lemma_position_of(next);
            },
            _ => {},
        }
    }

    /// An operation that no other disturbs is done within as many accesses
    /// as its distance says.
    pub proof fn lemma_finishes_alone(self, thread: int)
        requires
            self.coherent(),
            self.runs(thread),
        ensures
            self.memory.halts(self.threads[thread], self.memory.distance(self.threads[thread])),
        decreases self.memory.distance(self.threads[thread]),
    {
        let operation = self.threads[thread];
        assert(self.memory.fits(operation));
        if !operation.done() {
            let after = self.next(Turn::Step { thread });
            self.lemma_turn_keeps_coherent(Turn::Step { thread });
            self.lemma_step_comes_closer(thread);
            after.lemma_finishes_alone(thread);
            self.memory.lemma_fits_admits(operation);
            after.memory.lemma_more_fuel(
                after.threads[thread],
                after.memory.distance(after.threads[thread]),
                (self.memory.distance(operation) - 1) as nat,
                None,
            );
        }
    }
}

} // verus!
