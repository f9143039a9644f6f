use vstd::prelude::*;
use crate::interleaving::coherence::{lemma_sums_at_rest, lemma_sums_bounded, tally, Claim};
use crate::interleaving::effect::Effect;
use crate::interleaving::world::{Turn, World};
use crate::machine::{Operation, PopFront, PushBack, PushFront};
use crate::memory::Memory;
use crate::node::Handle;

verus! {

impl Effect {
    /// No effect on what the shared state records.
    pub open spec fn none() -> Self {
        Effect {
            allocated: false,
            linked: None,
            stacked: None,
            unstacked: None,
            advanced: None,
            emptied: None,
            retired: None,
            pointed: None,
            counted: 0,
        }
    }
}

impl<T> Memory<T> {
    /// In a threaded state the node that `head` refers to is known: it is
    /// the top of the stack, or the anchor where nothing is stacked.
    pub proof fn lemma_head(self)
        requires
            self.threaded(),
        ensures
            self.has(self.head),
            self.known(self.head),
            self.order.contains(self.head) ==> self.stack.len() == 0 && self.head == self.anchor
                && self.position(self.head) == self.pivot(),
            self.nodes[self.head as int].front ==> self.stack.len() > 0 && self.head
                == self.stack[0],
            0 <= self.pivot() < self.order.len(),
            0 <= self.rear() < self.order.len(),
            self.order[self.pivot()] == self.anchor,
            self.order[self.rear()] == self.tail,
    {
        self.lemma_position_of(self.anchor);
        self.lemma_position_of(self.tail);
        self.lemma_sort_threaded(self.head);
        self.lemma_sort_threaded(self.anchor);
        if self.stack.len() > 0 {
            assert(self.has(self.stack[0]));
            assert(self.stack.contains(self.stack[0]));
        }
    }
}

impl<T> World<T> {
    /// An access of an append keeps the world coherent.
    #[verifier::rlimit(100)]
    #[verifier::spinoff_prover]
    proof fn lemma_back_step(self, thread: int, state: PushBack)
        requires
            self.coherent(),
            self.runs(thread),
            self.threads[thread] == Operation::Back(state),
        ensures
            self.next(Turn::Step { thread }).coherent(),
    {
        let after = self.next(Turn::Step { thread });
        let m = self.memory;
        let n = after.memory;
        let k = m.order.len() as int;
        assert(m.fits(self.threads[thread]));
        m.lemma_head();
        assert forall|claim: Claim| #[trigger]
            after.threads[thread].claims(claim) == after.threads[thread].claims(claim) by {}
        match state {
            PushBack::LoadTail { .. } => {
                self.lemma_moves_coherent(after, thread, Effect::none());
            },
            PushBack::LoadNext { onto, .. } => {
                m.lemma_position_of(onto);
                let q = m.position(onto);
                assert(m.at(q).next == m.after(q));
                assert(m.has(m.order[q]));
                if q + 1 < k {
                    m.lemma_position(q + 1);
                    assert(m.order.contains(m.order[q + 1]));
                }
                self.lemma_moves_coherent(after, thread, Effect::none());
            },
            PushBack::Help { onto, next, .. } => {
                m.lemma_sort_threaded(next);
                self.lemma_moves_coherent(after, thread, Effect::none());
            },
            PushBack::Link { new, onto } => {
                m.lemma_position_of(onto);
                m.lemma_sort_threaded(onto);
                let q = m.position(onto);
                assert(m.at(q).next == m.after(q));
                if m.nodes[onto as int].next is None {
                    assert(m.order.last() == onto);
                    assert(m.loose(new));
                    assert(n.order =~= m.order.push(new));
                    m.lemma_position_pushed(n, new);
                    assert(n.order.contains(onto));
                    self.lemma_moves_coherent(
                        after,
                        thread,
                        Effect { linked: Some(new), ..Effect::none() },
                    );
                } else {
                    self.lemma_moves_coherent(after, thread, Effect::none());
                }
            },
            PushBack::SetPrev { new, onto } => {
                m.lemma_sort_threaded(new);
                m.lemma_sort_threaded(onto);
                self.lemma_moves_coherent(after, thread, Effect::none());
            },
            PushBack::Swing { new, onto } => {
                m.lemma_sort_threaded(new);
                m.lemma_position_of(new);
                m.lemma_position_of(onto);
                n.lemma_position_of(n.tail);
                if m.tail == onto {
                    assert(n.tail == new);
                    m.lemma_position(m.position(new));
                }
                self.lemma_moves_coherent(after, thread, Effect::none());
            },
            PushBack::Count => {
                self.lemma_moves_coherent(after, thread, Effect { counted: 1, ..Effect::none() });
            },
            PushBack::Done => {
                assert(after.threads =~= self.threads);
                self.lemma_moves_coherent(after, thread, Effect::none());
            },
        }
    }

    /// An access of an insertion at the front keeps the world coherent.
    #[verifier::rlimit(100)]
    #[verifier::spinoff_prover]
    proof fn lemma_front_step(self, thread: int, state: PushFront)
        requires
            self.coherent(),
            self.runs(thread),
            self.threads[thread] == Operation::Front(state),
        ensures
            self.next(Turn::Step { thread }).coherent(),
    {
        let after = self.next(Turn::Step { thread });
        let m = self.memory;
        let n = after.memory;
        assert(m.fits(self.threads[thread]));
        m.lemma_head();
        assert forall|claim: Claim| #[trigger]
            after.threads[thread].claims(claim) == after.threads[thread].claims(claim) by {}
        match state {
            PushFront::LoadHead { .. } => {
                self.lemma_moves_coherent(after, thread, Effect::none());
            },
            PushFront::SetNext { new, .. } => {
                assert(n.order == m.order && n.stack == m.stack && n.spent == m.spent);
                self.lemma_moves_coherent(
                    after,
                    thread,
                    Effect { pointed: Some(new), ..Effect::none() },
                );
            },
            PushFront::Link { new, onto } => {
                if m.head == onto {
                    self.lemma_moves_coherent(
                        after,
                        thread,
                        Effect { stacked: Some(new), ..Effect::none() },
                    );
                } else {
                    self.lemma_moves_coherent(after, thread, Effect::none());
                }
            },
            PushFront::SetPrev { .. } => {
                self.lemma_moves_coherent(after, thread, Effect::none());
            },
            PushFront::Count => {
                self.lemma_moves_coherent(after, thread, Effect { counted: 1, ..Effect::none() });
            },
            PushFront::Done => {
                assert(after.threads =~= self.threads);
                self.lemma_moves_coherent(after, thread, Effect::none());
            },
        }
    }

    /// An access of a removal keeps the world coherent.
    #[verifier::rlimit(100)]
    #[verifier::spinoff_prover]
    proof fn lemma_pop_step(self, thread: int, state: PopFront)
        requires
            self.coherent(),
            self.runs(thread),
            self.threads[thread] == Operation::Pop(state),
        ensures
            self.next(Turn::Step { thread }).coherent(),
    {
        let after = self.next(Turn::Step { thread });
        let m = self.memory;
        let n = after.memory;
        let k = m.order.len() as int;
        let a = m.pivot();
        assert(m.fits(self.threads[thread]));
        m.lemma_head();
        assert(m.at(a).next == m.after(a));
        assert forall|claim: Claim| #[trigger]
            after.threads[thread].claims(claim) == after.threads[thread].claims(claim) by {}
        match state {
            PopFront::LoadHead => {
                self.lemma_moves_coherent(after, thread, Effect::none());
            },
            PopFront::Inspect { head } => {
                m.lemma_sort_threaded(head);
                if m.order.contains(head) {
                    m.lemma_position_of(head);
                    let p = m.position(head);
                    assert(m.at(p).next == m.after(p));
                    if p + 1 < k {
                        m.lemma_position(p + 1);
                        assert(m.order.contains(m.order[p + 1]));
                    }
                } else if m.stack.contains(head) {
                    let j = choose|j: int| 0 <= j < m.stack.len() && m.stack[j] == head;
                    assert(m.up(j).next == Some(m.below(j)));
                    if j + 1 < m.stack.len() {
                        assert(m.has(m.stack[j + 1]));
                    }
                } else {
                    let j = choose|j: int| 0 <= j < m.spent.len() && m.spent[j] == head;
                    assert(m.has(m.nodes[m.spent[j] as int].next->0));
                }
                self.lemma_moves_coherent(after, thread, Effect::none());
            },
            PopFront::Unstack { head, next } => {
                m.lemma_sort_threaded(head);
                if m.head == head {
                    assert(m.up(0).next == Some(m.below(0)));
                    assert(n.spent[m.spent.len() as int] == head);
                    assert(!m.retired.contains(head)) by {
                        if m.retired.contains(head) {
                            let j = choose|j: int|
                                0 <= j < m.retired.len() && m.retired[j] == head;
                            assert(m.left(m.retired[j]));
                        }
                    }
                    assert(!n.retired.contains(head));
                    self.lemma_moves_coherent(
                        after,
                        thread,
                        Effect { unstacked: Some(head), ..Effect::none() },
                    );
                } else {
                    self.lemma_moves_coherent(after, thread, Effect::none());
                }
            },
            PopFront::Take { head } => {
                m.lemma_sort_threaded(head);
                assert(n.spent == m.spent && n.retired == m.retired);
                self.lemma_moves_coherent(
                    after,
                    thread,
                    Effect { emptied: Some(head), ..Effect::none() },
                );
            },
            PopFront::Unlink { head, next } => {
                m.lemma_sort_threaded(next);
                m.lemma_sort_threaded(head);
                m.lemma_position_of(head);
                m.lemma_position_of(next);
                if m.head == head {
                    assert(next == m.order[a + 1]);
                    assert(m.at(a + 1).inner is Some);
                    assert(n.order[a + 1] == n.anchor);
                    n.lemma_position(a + 1);
                    assert(!m.retired.contains(head)) by {
                        if m.retired.contains(head) {
                            let j = choose|j: int|
                                0 <= j < m.retired.len() && m.retired[j] == head;
                            assert(m.left(m.retired[j]));
                        }
                    }
                    self.lemma_moves_coherent(
                        after,
                        thread,
                        Effect { advanced: Some(head), ..Effect::none() },
                    );
                } else {
                    self.lemma_moves_coherent(after, thread, Effect::none());
                }
            },
            PopFront::LoadTail { head, .. } => {
                m.lemma_position_of(head);
                self.lemma_moves_coherent(after, thread, Effect::none());
            },
            PopFront::Help { head, next } => {
                m.lemma_sort_threaded(next);
                m.lemma_position_of(head);
                m.lemma_position_of(next);
                n.lemma_position_of(n.tail);
                if m.tail == head {
                    m.lemma_position(m.position(next));
                }
                self.lemma_moves_coherent(after, thread, Effect::none());
            },
            PopFront::Consume { head, next } => {
                m.lemma_sort_threaded(next);
                m.lemma_position_of(head);
                m.lemma_position_of(next);
                self.lemma_moves_coherent(
                    after,
                    thread,
                    Effect { emptied: Some(next), ..Effect::none() },
                );
            },
            PopFront::Retire { head } => {
                m.lemma_sort_threaded(head);
                self.lemma_moves_coherent(
                    after,
                    thread,
                    Effect { retired: Some(head), ..Effect::none() },
                );
            },
            PopFront::Count => {
                self.lemma_moves_coherent(after, thread, Effect { counted: -1, ..Effect::none() });
            },
            PopFront::Done => {
                assert(after.threads =~= self.threads);
                self.lemma_moves_coherent(after, thread, Effect::none());
            },
        }
    }

    /// A turn keeps the world coherent.
    #[verifier::rlimit(100)]
    #[verifier::spinoff_prover]
    pub proof fn lemma_turn_keeps_coherent(self, turn: Turn<T>)
        requires
            self.coherent(),
        ensures
            self.next(turn).coherent(),
    {
        let after = self.next(turn);
        let m = self.memory;
        match turn {
            Turn::Append { thread, .. } => {
                if self.idle(thread) && m.nodes.len() < usize::MAX {
                    self.lemma_begin(after, thread);
                }
            },
            Turn::Prepend { thread, .. } => {
                if self.idle(thread) && m.nodes.len() < usize::MAX {
                    self.lemma_begin(after, thread);
                }
            },
            Turn::Remove { thread } => {
                if self.idle(thread) {
                    assert forall|claim: Claim| #[trigger]
                        after.threads[thread].claims(claim) == self.threads[thread].claims(
                            claim,
                        ) by {}
                    self.lemma_moves_coherent(after, thread, Effect::none());
                }
            },
            Turn::Step { thread } => {
                if self.runs(thread) {
                    match self.threads[thread] {
                        Operation::Back(state) => {
                            self.lemma_back_step(thread, state);
                        },
                        Operation::Front(state) => {
                            self.lemma_front_step(thread, state);
                        },
                        Operation::Pop(state) => {
                            self.lemma_pop_step(thread, state);
                        },
                    }
                }
            },
        }
    }

    /// The start of an insertion, which allocates a node for its value,
    /// keeps the world coherent.
    #[verifier::rlimit(100)]
    #[verifier::spinoff_prover]
    proof fn lemma_begin(self, after: World<T>, thread: int)
        requires
            self.coherent(),
            self.idle(thread),
            after.handed == self.handed,
            after.threads == self.threads.update(thread, after.threads[thread]),
            after.memory.nodes.len() == self.memory.nodes.len() + 1 <= usize::MAX,
            after.memory == self.memory.allocate(after.memory.nodes[self.memory.nodes.len() as int]),
            after.memory.nodes[self.memory.nodes.len() as int].inner is Some,
            after.memory.nodes[self.memory.nodes.len() as int].next is None,
            after.threads[thread] == Operation::Back(
                PushBack::LoadTail { new: self.memory.nodes.len() as Handle },
            ) && !after.memory.nodes[self.memory.nodes.len() as int].front || after.threads[thread]
                == Operation::Front(PushFront::LoadHead { new: self.memory.nodes.len() as Handle })
                && after.memory.nodes[self.memory.nodes.len() as int].front,
        ensures
            after.coherent(),
    {
        let m = self.memory;
        let n = after.memory;
        let new = m.nodes.len() as Handle;
        m.lemma_sort_threaded(new);
        assert(n.order == m.order && n.stack == m.stack && n.spent == m.spent);
        assert(!n.known(new));
        assert forall|claim: Claim| (#[trigger] self.threads[thread].claims(claim)) is None by {}
        assert forall|claim: Claim| #[trigger]
            after.threads[thread].claims(claim) == after.threads[thread].claims(claim) by {}
        self.lemma_moves_coherent(after, thread, Effect { allocated: true, ..Effect::none() });
    }

    /// A new list with idle threads is coherent.
    pub proof fn lemma_initial_coherent(threads: nat)
        requires
            threads <= usize::MAX,
        ensures
            Self::initial(threads).coherent(),
    {
        let start = Self::initial(threads);
        let m = start.memory;
        assert(m.order[0] == 0);
        m.lemma_position(0);
        assert(m.threaded()) by {
            assert forall|h: Handle| m.pending(h) implies #[trigger] m.loose(h) by {
                assert(m.order[0] == h);
            }
        }
        lemma_sums_at_rest(start.threads);
        assert(tally(start.threads, Claim::Unlinked) == 0);
        assert(tally(start.threads, Claim::Won) == 0);
        assert(start.covered()) by {
            assert forall|h: Handle| #[trigger] m.pending(h) implies start.claimed(
                Claim::Loose,
                h,
            ) by {
                assert(m.order[0] == h);
            }
        }
    }

    /// A coherent world in which every thread is idle holds a list at rest,
    /// and `tail` has caught up with the last node.
    #[verifier::rlimit(100)]
    #[verifier::spinoff_prover]
    pub proof fn lemma_at_rest(self)
        requires
            self.coherent(),
            self.at_rest(),
        ensures
            self.memory.wf(),
            self.memory.tail == self.memory.order.last(),
            self.memory.retired.len() == self.handed.len(),
    {
        let m = self.memory;
        lemma_sums_at_rest(self.threads);
        assert(tally(self.threads, Claim::Unlinked) == 0);
        assert(tally(self.threads, Claim::Won) == 0);
        lemma_sums_bounded(self.threads);
        m.lemma_head();
        assert forall|claim: Claim, h: Handle| !self.claimed(claim, h) by {
            if self.claimed(claim, h) {
                let t = choose|t: int|
                    0 <= t < self.threads.len() && (#[trigger] self.threads[t]).claims(claim)
                        == Some(h);
                assert(self.threads[t].done());
            }
        }
        assert forall|i: int| 0 <= i < m.pivot() implies m.retired.contains(
            #[trigger] m.order[i],
        ) by {
            if !m.retired.contains(m.order[i]) {
                assert(self.claimed(Claim::Unlinked, m.order[i]));
            }
        }
        assert(m.pivot() <= m.rear()) by {
            if m.pivot() > 0 {
                let i = m.pivot() - 1;
                assert(m.retired.contains(m.order[i]));
                let j = choose|j: int| 0 <= j < m.retired.len() && m.retired[j] == m.order[i];
                assert(m.left(m.retired[j]));
                m.lemma_position(i);
                m.lemma_sort_threaded(m.order[i]);
            }
        }
        assert(m.appended()) by {
            assert forall|i: int| 0 <= i < m.order.len() implies (#[trigger] m.at(i)).next
                == m.after(i) && (m.at(i).inner is Some <==> m.pivot() < i) by {
                if i <= m.pivot() && m.at(i).inner is Some {
                    assert(self.claimed(Claim::Won, m.order[i]));
                }
            }
        }
        assert(m.stacked()) by {
            assert forall|j: int| 0 <= j < m.spent.len() implies m.has(#[trigger] m.spent[j])
                && m.nodes[m.spent[j] as int].front && m.nodes[m.spent[j] as int].inner is None
                && !m.stack.contains(m.spent[j]) by {
                if m.nodes[m.spent[j] as int].inner is Some {
                    assert(self.claimed(Claim::Won, m.spent[j]));
                }
            }
        }
        assert(m.reclaimed()) by {
            assert forall|j: int| 0 <= j < m.retired.len() implies m.gone(
                #[trigger] m.retired[j],
            ) by {
                assert(m.left(m.retired[j]));
            }
            assert forall|j: int| 0 <= j < m.spent.len() implies m.retired.contains(
                #[trigger] m.spent[j],
            ) by {
                if !m.retired.contains(m.spent[j]) {
                    assert(self.claimed(Claim::Unlinked, m.spent[j]));
                }
            }
        }
        assert forall|h: Handle| m.has(h) implies (#[trigger] m.order.contains(h))
            || m.stack.contains(h) || m.spent.contains(h) by {
            if !m.known(h) {
                assert(m.pending(h));
                assert(self.claimed(Claim::Loose, h));
            }
        }
        if m.rear() < m.order.len() - 1 {
            assert(self.claimed(Claim::Unswung, m.order.last()));
        }
    }
}

} // verus!
