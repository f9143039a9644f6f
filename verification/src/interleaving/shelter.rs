use vstd::prelude::*;
use crate::action::Action;
use crate::interleaving::world::{Turn, World};
use crate::machine::{Operation, PopFront, PushBack, PushFront};
use crate::memory::Memory;
use crate::node::Handle;

verus! {

impl Action {
    /// Whether the access reads or writes a field of the node `handle`.
    pub open spec fn touches(self, handle: Handle) -> bool {
        match self {
            Action::ProtectNext { node } => node == handle,
            Action::Inspect { node } => node == handle,
            Action::LinkNext { node, .. } => node == handle,
            Action::LinkPrev { node, .. } => node == handle,
            Action::StoreNext { node, .. } => node == handle,
            Action::Consume { node } => node == handle,
            Action::Retire { node } => node == handle,
            _ => false,
        }
    }
}

impl Operation {
    /// Whether `handle` is a node that the operation may yet read or write
    /// without loading it again.
    pub open spec fn holds(self, handle: Handle) -> bool {
        match self {
            Operation::Back(PushBack::LoadTail { new }) => handle == new,
            Operation::Back(PushBack::LoadNext { new, onto }) => handle == new || handle == onto,
            Operation::Back(PushBack::Help { new, .. }) => handle == new,
            Operation::Back(PushBack::Link { new, onto }) => handle == new || handle == onto,
            Operation::Back(PushBack::SetPrev { new, .. }) => handle == new,
            Operation::Front(PushFront::LoadHead { new }) => handle == new,
            Operation::Front(PushFront::SetNext { new, onto }) => handle == new || handle == onto,
            Operation::Front(PushFront::Link { new, onto }) => handle == new || handle == onto,
            Operation::Front(PushFront::SetPrev { onto, .. }) => handle == onto,
            Operation::Pop(PopFront::Inspect { head }) => handle == head,
            Operation::Pop(PopFront::Unstack { head, .. }) => handle == head,
            Operation::Pop(PopFront::Take { head }) => handle == head,
            Operation::Pop(PopFront::Unlink { head, next }) => handle == head || handle == next,
            Operation::Pop(PopFront::LoadTail { head, next }) => handle == head || handle == next,
            Operation::Pop(PopFront::Help { head, next }) => handle == head || handle == next,
            Operation::Pop(PopFront::Consume { head, next }) => handle == head || handle == next,
            Operation::Pop(PopFront::Retire { head }) => handle == head,
            _ => false,
        }
    }

    /// An operation touches only nodes that it holds.
    pub proof fn lemma_touches_what_it_holds(self, handle: Handle)
        requires
            self.spec_action() matches Some(action) && action.touches(handle),
        ensures
            self.holds(handle),
    {
    }
}

impl<T> Memory<T> {
    /// `handle` is not among the first `since` nodes retired.
    pub open spec fn spared(self, handle: Handle, since: nat) -> bool {
        forall|j: int|
            0 <= j < since && j < self.retired.len() ==> (#[trigger] self.retired[j]) != handle
    }

    /// `handle` is not among the first `since` nodes retired, and where it
    /// is appended, it stands behind each of those that were appended.
    pub open spec fn clear(self, handle: Handle, since: nat) -> bool {
        &&& self.spared(handle, since)
        &&& self.order.contains(handle) ==> forall|j: int|
            0 <= j < since && j < self.retired.len() && self.order.contains(
                #[trigger] self.retired[j],
            ) ==> self.position(self.retired[j]) < self.position(handle)
    }

    /// What a step of an operation that fits can do to `order` and to the
    /// retired nodes: append one node that was not linked, retire one more
    /// node.
    pub open spec fn grows_to(self, after: Memory<T>) -> bool {
        &&& after.order == self.order || (after.order.len() == self.order.len() + 1
            && after.order.drop_last() == self.order && !self.known(after.order.last()))
        &&& after.retired == self.retired || (after.retired.len() == self.retired.len() + 1
            && after.retired.drop_last() == self.retired)
    }

    /// A node that is clear stays clear when `order` and the retired nodes
    /// grow.
    #[verifier::rlimit(100)]
    #[verifier::spinoff_prover]
    pub proof fn lemma_clear_stable(self, after: Memory<T>, handle: Handle, since: nat)
        requires
            self.threaded(),
            self.grows_to(after),
            self.clear(handle, since),
            since <= self.retired.len(),
        ensures
            after.clear(handle, since),
    {
        let k = self.order.len() as int;
        assert forall|j: int| 0 <= j < since implies after.retired[j] == self.retired[j]
            && self.left(self.retired[j]) by {
            if after.retired != self.retired {
                assert(after.retired.drop_last()[j] == self.retired[j]);
            }
        }
        if after.order != self.order {
            let new = after.order.last();
            assert(after.order =~= self.order.push(new)) by {
                assert forall|i: int| 0 <= i < k implies after.order[i] == self.order[i] by {
                    assert(after.order.drop_last()[i] == self.order[i]);
                }
            }
            self.lemma_position_pushed(after, new);
            if after.order.contains(handle) {
                assert forall|j: int|
                    0 <= j < since && j < after.retired.len() && after.order.contains(
                        #[trigger] after.retired[j],
                    ) implies after.position(after.retired[j]) < after.position(handle) by {
                    let r = self.retired[j];
                    assert(self.left(r));
                    assert(self.order.contains(r));
                    self.lemma_position_of(r);
                }
            }
        } else if after.order.contains(handle) {
            assert forall|j: int|
                0 <= j < since && j < after.retired.len() && after.order.contains(
                    #[trigger] after.retired[j],
                ) implies after.position(after.retired[j]) < after.position(handle) by {
                assert(self.position(self.retired[j]) < self.position(handle));
            }
        }
    }

    /// The nodes that `head` and `tail` refer to are clear, and so is a
    /// node that is not retired and not appended.
    pub proof fn lemma_ends_clear(self, since: nat)
        requires
            self.threaded(),
        ensures
            self.clear(self.head, since),
            self.clear(self.tail, since),
    {
        self.lemma_head();
        assert forall|j: int| 0 <= j < self.retired.len() implies self.left(
            #[trigger] self.retired[j],
        ) && self.retired[j] != self.head && self.retired[j] != self.tail by {
            assert(self.left(self.retired[j]));
            self.lemma_sort_threaded(self.retired[j]);
            self.lemma_sort_threaded(self.head);
            self.lemma_sort_threaded(self.tail);
        }
        assert forall|j: int|
            0 <= j < since && j < self.retired.len() && self.order.contains(
                #[trigger] self.retired[j],
            ) implies self.position(self.retired[j]) < self.rear() && self.position(
            self.retired[j],
        ) < self.pivot() by {
            assert(self.left(self.retired[j]));
            self.lemma_sort_threaded(self.retired[j]);
        }
    }

    /// The successor of a clear appended node is clear.
    pub proof fn lemma_successor_clear(self, next: Handle, onto: Handle, since: nat)
        requires
            self.threaded(),
            self.follows(next, onto),
            self.clear(onto, since),
        ensures
            self.clear(next, since),
    {
        assert forall|j: int| 0 <= j < since && j < self.retired.len() implies (
        #[trigger] self.retired[j]) != next by {
            if self.retired[j] == next {
                assert(self.order.contains(self.retired[j]));
                assert(self.position(self.retired[j]) < self.position(onto));
            }
        }
    }
}

impl<T> World<T> {
    /// Every node that an operation holds is clear of the nodes that were
    /// retired before the operation began.
    pub open spec fn sheltered(self) -> bool {
        &&& self.since.len() == self.threads.len()
        &&& forall|t: int| 0 <= t < self.since.len() ==> (#[trigger] self.since[t])
            <= self.memory.retired.len()
        &&& forall|t: int, h: Handle|
            0 <= t < self.threads.len() && (#[trigger] self.threads[t].holds(h))
                ==> self.memory.clear(h, self.since[t])
    }

    /// A step of an operation that fits only lets `order` and the retired
    /// nodes grow.
    pub proof fn lemma_step_grows(self, thread: int)
        requires
            self.coherent(),
            self.runs(thread),
        ensures
            self.memory.grows_to(self.memory.step(self.threads[thread])),
    {
        let m = self.memory;
        let after = m.step(self.threads[thread]);
        assert(m.fits(self.threads[thread]));
        match self.threads[thread] {
            Operation::Back(PushBack::Link { .. }) => {
                if after.order != m.order {
                    assert(after.order.drop_last() =~= m.order);
                }
            },
            Operation::Pop(PopFront::Retire { .. }) => {
                if after.retired != m.retired {
                    assert(after.retired.drop_last() =~= m.retired);
                }
            },
            _ => {},
        }
    }

    /// A step keeps the operations sheltered.
    #[verifier::rlimit(100)]
    #[verifier::spinoff_prover]
    pub proof fn lemma_step_keeps_shelter(self, thread: int)
        requires
            self.coherent(),
            self.sheltered(),
            self.runs(thread),
        ensures
            self.next(Turn::Step { thread }).sheltered(),
    {
        let after = self.next(Turn::Step { thread });
        let m = self.memory;
        let n = after.memory;
        let operation = self.threads[thread];
        self.lemma_step_grows(thread);
        assert(m.fits(operation));
        assert forall|t: int| 0 <= t < after.since.len() implies (#[trigger] after.since[t])
            <= n.retired.len() by {
            assert(self.since[t] <= m.retired.len());
        }
        assert forall|t: int, h: Handle|
            0 <= t < after.threads.len() && (#[trigger] after.threads[t].holds(h)) implies n.clear(
            h,
            after.since[t],
        ) by {
            let since = self.since[t];
            assert(since <= m.retired.len());
            if t != thread || operation.holds(h) {
                assert(self.threads[t].holds(h));
                m.lemma_clear_stable(n, h, since);
            } else {
                m.lemma_ends_clear(since);
                m.lemma_head();
                match operation {
                    Operation::Back(PushBack::LoadTail { .. }) => {
                        m.lemma_clear_stable(n, m.tail, since);
                    },
                    Operation::Front(PushFront::LoadHead { .. }) => {
                        m.lemma_clear_stable(n, m.head, since);
                    },
                    Operation::Pop(PopFront::LoadHead) => {
                        m.lemma_clear_stable(n, m.head, since);
                    },
                    Operation::Pop(PopFront::Inspect { head }) => {
                        assert(operation.holds(head));
                        m.lemma_sort_threaded(head);
                        if m.order.contains(head) {
                            m.lemma_position_of(head);
                            let p = m.position(head);
                            assert(m.at(p).next == m.after(p));
                            m.lemma_position(p + 1);
                            assert(m.order.contains(m.order[p + 1]));
                            m.lemma_successor_clear(h, head, since);
                            m.lemma_clear_stable(n, h, since);
                        }
                    },
                    _ => {},
                }
            }
        }
    }

    /// A turn keeps the operations sheltered.
    #[verifier::rlimit(100)]
    #[verifier::spinoff_prover]
    pub proof fn lemma_turn_keeps_shelter(self, turn: Turn<T>)
        requires
            self.coherent(),
            self.sheltered(),
        ensures
            self.next(turn).sheltered(),
    {
        let after = self.next(turn);
        let m = self.memory;
        let n = after.memory;
        match turn {
            Turn::Step { thread } => {
                if self.runs(thread) {
                    self.lemma_step_keeps_shelter(thread);
                }
            },
            _ => {
                if after != self {
                    let thread = match turn {
                        Turn::Append { thread, .. } => thread,
                        Turn::Prepend { thread, .. } => thread,
                        Turn::Remove { thread } => thread,
                        Turn::Step { thread } => thread,
                    };
                    let new = self.fresh_handle();
                    m.lemma_sort_threaded(new);
                    assert(n.order == m.order && n.retired == m.retired);
                    assert forall|t: int| 0 <= t < after.since.len() implies (
                    #[trigger] after.since[t]) <= n.retired.len() by {
                        assert(self.since[t] <= m.retired.len());
                    }
                    assert forall|t: int, h: Handle|
                        0 <= t < after.threads.len() && (#[trigger] after.threads[t].holds(
                            h,
                        )) implies n.clear(h, after.since[t]) by {
                        if t != thread {
                            assert(self.threads[t].holds(h));
                            assert(m.clear(h, self.since[t]));
                            m.lemma_clear_stable(n, h, self.since[t]);
                        } else {
                            assert(h == new);
                            assert forall|j: int| 0 <= j < n.retired.len() implies (
                            #[trigger] n.retired[j]) != h by {
                                assert(m.left(m.retired[j]));
                                m.lemma_sort_threaded(m.retired[j]);
                            }
                        }
                    }
                }
            },
        }
    }
}

/// The world stays coherent and sheltered, and keeps its threads.
pub proof fn lemma_sheltered<T>(threads: nat, turns: Seq<Turn<T>>)
    requires
        threads <= usize::MAX,
    ensures
        World::<T>::initial(threads).execute(turns).coherent(),
        World::<T>::initial(threads).execute(turns).sheltered(),
        World::<T>::initial(threads).execute(turns).threads.len() == threads,
    decreases turns.len(),
{
    let start = World::<T>::initial(threads);
    crate::interleaving::laws::law_interleaving_is_coherent::<T>(threads, turns);
    if turns.len() > 0 {
        lemma_sheltered::<T>(threads, turns.drop_last());
        start.execute(turns.drop_last()).lemma_turn_keeps_shelter(turns.last());
    }
}

} // verus!
