use vstd::prelude::*;
use crate::interleaving::coherence::{
    debt, lemma_debt_update, lemma_loose_update, lemma_sums_bounded, lemma_tally_update,
    loose_nodes, Claim,
};
use crate::interleaving::effect::Effect;
use crate::interleaving::world::World;
use crate::machine::{Operation, PopFront, PushBack, PushFront};
use crate::node::Handle;

verus! {

impl<T> World<T> {
    /// Where a node stands after a turn: it stays of its sort, but for the
    /// node that the turn has linked, stacked or taken off the stack; and it
    /// stays retired, and only the node the turn has retired joins.
    pub proof fn lemma_moves_sorts(self, after: World<T>, thread: int, e: Effect, h: Handle)
        requires
            self.coherent(),
            self.moves(after, thread, e),
        ensures
            self.memory.order.contains(h) ==> after.memory.order.contains(h)
                && after.memory.position(h) == self.memory.position(h),
            after.memory.order.contains(h) ==> self.memory.order.contains(h) || e.linked == Some(h),
            self.memory.spent.contains(h) ==> after.memory.spent.contains(h),
            after.memory.spent.contains(h) ==> self.memory.spent.contains(h) || e.unstacked
                == Some(h),
            self.memory.stack.contains(h) ==> after.memory.stack.contains(h) || e.unstacked
                == Some(h),
            after.memory.stack.contains(h) ==> self.memory.stack.contains(h) || e.stacked == Some(
                h,
            ),
            e.unstacked == Some(h) ==> self.memory.stack.contains(h) && after.memory.spent.contains(
                h,
            ),
            e.stacked == Some(h) ==> after.memory.stack.contains(h) && self.memory.pending(h),
            e.linked == Some(h) ==> after.memory.order.contains(h) && self.memory.pending(h),
            self.memory.retired.contains(h) ==> after.memory.retired.contains(h),
            after.memory.retired.contains(h) ==> self.memory.retired.contains(h) || e.retired
                == Some(h),
            e.retired == Some(h) ==> after.memory.retired.contains(h),
            self.memory.known(h) ==> self.memory.has(h),
    {
        let m = self.memory;
        let n = after.memory;
        self.lemma_moves_positions(after, thread, e);
        m.lemma_sort_threaded(h);
        assert(m.fits(self.threads[thread]));
        if m.spent.contains(h) {
            let i = choose|i: int| 0 <= i < m.spent.len() && m.spent[i] == h;
            assert(n.spent[i] == h);
        }
        if n.spent.contains(h) {
            let i = choose|i: int| 0 <= i < n.spent.len() && n.spent[i] == h;
            if i < m.spent.len() {
                assert(m.spent[i] == h);
            }
        }
        if m.stack.contains(h) {
            let i = choose|i: int| 0 <= i < m.stack.len() && m.stack[i] == h;
            if e.stacked is Some {
                assert(n.stack[i + 1] == h);
            } else if e.unstacked is Some {
                if i > 0 {
                    assert(n.stack[i - 1] == h);
                }
            }
        }
        if n.stack.contains(h) {
            let i = choose|i: int| 0 <= i < n.stack.len() && n.stack[i] == h;
            if e.stacked is Some {
                if i > 0 {
                    assert(m.stack[i - 1] == h);
                }
            } else if e.unstacked is Some {
                assert(m.stack[i + 1] == h);
            }
        }
        if e.unstacked == Some(h) {
            assert(m.stack[0] == h);
            assert(n.spent[m.spent.len() as int] == h);
        }
        if e.stacked == Some(h) {
            assert(n.stack[0] == h);
        }
        if m.retired.contains(h) {
            let i = choose|i: int| 0 <= i < m.retired.len() && m.retired[i] == h;
            assert(n.retired[i] == h);
        }
        if e.retired == Some(h) {
            assert(n.retired[m.retired.len() as int] == h);
        }
        if n.retired.contains(h) {
            let i = choose|i: int| 0 <= i < n.retired.len() && n.retired[i] == h;
            if i < m.retired.len() {
                assert(m.retired[i] == h);
            }
        }
    }

    /// What another operation knows of the shared state stays true over a
    /// turn.
    #[verifier::rlimit(80)]
    #[verifier::spinoff_prover]
    pub proof fn lemma_moves_other_fits(self, after: World<T>, thread: int, e: Effect, other: int)
        requires
            self.coherent(),
            self.moves(after, thread, e),
            after.memory.threaded(),
            self.runs(other),
            other != thread,
        ensures
            after.memory.fits(self.threads[other]),
    {
        let m = self.memory;
        let n = after.memory;
        let s = self.threads[thread];
        let operation = self.threads[other];
        self.lemma_moves_positions(after, thread, e);
        assert(m.fits(operation));
        assert(m.fits(s));
        assert(s.apart(operation));
        assert(operation.apart(s));
        match operation {
            Operation::Back(PushBack::LoadTail { new }) => {
                self.lemma_moves_sorts(after, thread, e, new);
            },
            Operation::Back(PushBack::LoadNext { new, onto }) => {
                self.lemma_moves_sorts(after, thread, e, new);
                self.lemma_moves_sorts(after, thread, e, onto);
            },
            Operation::Back(PushBack::Help { new, onto, next }) => {
                self.lemma_moves_sorts(after, thread, e, new);
                self.lemma_moves_sorts(after, thread, e, onto);
                self.lemma_moves_sorts(after, thread, e, next);
            },
            Operation::Back(PushBack::Link { new, onto }) => {
                self.lemma_moves_sorts(after, thread, e, new);
                self.lemma_moves_sorts(after, thread, e, onto);
            },
            Operation::Back(PushBack::SetPrev { new, onto }) => {
                self.lemma_moves_sorts(after, thread, e, new);
                self.lemma_moves_sorts(after, thread, e, onto);
            },
            Operation::Back(PushBack::Swing { new, onto }) => {
                self.lemma_moves_sorts(after, thread, e, new);
                self.lemma_moves_sorts(after, thread, e, onto);
            },
            Operation::Front(PushFront::LoadHead { new }) => {
                self.lemma_moves_sorts(after, thread, e, new);
            },
            Operation::Front(PushFront::SetNext { new, .. }) => {
                self.lemma_moves_sorts(after, thread, e, new);
            },
            Operation::Front(PushFront::Link { new, onto }) => {
                self.lemma_moves_sorts(after, thread, e, new);
                if m.order.len() > 0 {
                    self.lemma_moves_sorts(after, thread, e, m.order.last());
                    assert(m.order[m.order.len() - 1] == m.order.last());
                }
            },
            Operation::Pop(PopFront::Inspect { head }) => {
                self.lemma_moves_sorts(after, thread, e, head);
            },
            Operation::Pop(PopFront::Unstack { head, .. }) => {
                self.lemma_moves_sorts(after, thread, e, head);
                m.lemma_sort_threaded(head);
                if e.pointed is Some {
                    self.lemma_moves_sorts(after, thread, e, e.pointed->0);
                }
                if m.order.len() > 0 {
                    assert(m.order[m.order.len() - 1] == m.order.last());
                    m.lemma_sort_threaded(m.order.last());
                }
            },
            Operation::Pop(PopFront::Take { head }) => {
                self.lemma_moves_sorts(after, thread, e, head);
                m.lemma_sort_threaded(head);
            },
            Operation::Pop(PopFront::Unlink { head, next }) => {
                self.lemma_moves_sorts(after, thread, e, head);
                self.lemma_moves_sorts(after, thread, e, next);
            },
            Operation::Pop(PopFront::LoadTail { head, next }) => {
                self.lemma_moves_sorts(after, thread, e, head);
                self.lemma_moves_sorts(after, thread, e, next);
                m.lemma_sort_threaded(next);
            },
            Operation::Pop(PopFront::Help { head, next }) => {
                self.lemma_moves_sorts(after, thread, e, head);
                self.lemma_moves_sorts(after, thread, e, next);
                m.lemma_sort_threaded(next);
            },
            Operation::Pop(PopFront::Consume { head, next }) => {
                self.lemma_moves_sorts(after, thread, e, head);
                self.lemma_moves_sorts(after, thread, e, next);
                m.lemma_sort_threaded(next);
            },
            Operation::Pop(PopFront::Retire { head }) => {
                self.lemma_moves_sorts(after, thread, e, head);
            },
            _ => {},
        }
    }

    /// The threads stay apart over a turn.
    #[verifier::rlimit(80)]
    #[verifier::spinoff_prover]
    pub proof fn lemma_moves_exclusive(self, after: World<T>, thread: int, e: Effect)
        requires
            self.coherent(),
            self.moves(after, thread, e),
        ensures
            after.exclusive(),
    {
        let m = self.memory;
        let n = after.memory;
        let s = self.threads[thread];
        let z = after.threads[thread];
        self.lemma_moves_positions(after, thread, e);
        assert(m.fits(s));
        assert forall|claim: Claim, u: int|
            0 <= u < self.threads.len() && u != thread && (#[trigger] z.claims(claim)) is Some implies (
        #[trigger] self.threads[u]).claims(claim) != z.claims(claim) by {
            let handle = z.claims(claim)->0;
            let operation = self.threads[u];
            assert(m.fits(operation));
            assert(s.apart(operation));
            if z.claims(claim) != s.claims(claim) && operation.claims(claim) == Some(handle) {
                self.lemma_moves_sorts(after, thread, e, handle);
                m.lemma_sort_threaded(handle);
                m.lemma_position_of(m.anchor);
                if e.advanced is Some {
                    m.lemma_position(m.pivot() + 1);
                    m.lemma_sort_threaded(n.anchor);
                    assert(m.order.contains(n.anchor)) by {
                        assert(m.order[m.pivot() + 1] == n.anchor);
                    }
                }
                match operation {
                    Operation::Pop(PopFront::LoadTail { head, next }) => {
                        m.lemma_position_of(head);
                        m.lemma_position_of(next);
                    },
                    Operation::Pop(PopFront::Help { head, next }) => {
                        m.lemma_position_of(head);
                        m.lemma_position_of(next);
                    },
                    Operation::Pop(PopFront::Consume { head, next }) => {
                        m.lemma_position_of(head);
                        m.lemma_position_of(next);
                    },
                    _ => {},
                }
            }
        }
        assert forall|t: int, u: int|
            0 <= t < after.threads.len() && 0 <= u < after.threads.len() && t != u implies (
        #[trigger] after.threads[t]).apart(#[trigger] after.threads[u]) by {
            assert forall|claim: Claim| (#[trigger] after.threads[t].claims(claim)) is Some implies
                after.threads[t].claims(claim) != after.threads[u].claims(claim) by {
                if t == thread {
                    assert(self.threads[u].claims(claim) != z.claims(claim));
                } else if u == thread {
                    if z.claims(claim) is Some {
                        assert(self.threads[t].claims(claim) != z.claims(claim));
                    }
                } else {
                    assert(self.threads[t].apart(self.threads[u]));
                }
            }
        }
    }

    /// Whatever is unfinished about a node is still some operation's claim
    /// after a turn.
    #[verifier::rlimit(80)]
    #[verifier::spinoff_prover]
    pub proof fn lemma_moves_covered(self, after: World<T>, thread: int, e: Effect)
        requires
            self.coherent(),
            self.moves(after, thread, e),
            after.memory.threaded(),
        ensures
            after.covered(),
    {
        let m = self.memory;
        let n = after.memory;
        let s = self.threads[thread];
        let z = after.threads[thread];
        let k = m.order.len() as int;
        self.lemma_moves_positions(after, thread, e);
        assert(m.fits(s));
        assert(z.claims(Claim::Won) == s.claims(Claim::Won) || e.advanced is Some || e.unstacked is Some
            || e.emptied is Some);
        assert(z.claims(Claim::Unlinked) == s.claims(Claim::Unlinked) || e.advanced is Some
            || e.unstacked is Some || e.retired is Some);
        assert(z.claims(Claim::Loose) == s.claims(Claim::Loose) || e.allocated || e.linked is Some
            || e.stacked is Some);
        assert(z.claims(Claim::Unswung) == s.claims(Claim::Unswung) || e.linked is Some || (z.claims(
            Claim::Unswung,
        ) is None && (n.rear() == n.order.len() - 1 || s.claims(Claim::Unswung) != Some(
            m.order.last(),
        ))));
        assert forall|i: int|
            0 <= i <= n.pivot() && i < n.order.len() && (#[trigger] n.at(i)).inner is Some implies after.claimed(
            Claim::Won,
            n.order[i],
        ) by {
            let h = n.order[i];
            self.lemma_moves_sorts(after, thread, e, h);
            if i < k {
                assert(m.order[i] == h);
                assert(m.has(h));
                m.lemma_position(i);
            }
            if i <= m.pivot() {
                assert(m.at(i).inner is Some);
                self.lemma_claim_kept(after, thread, Claim::Won, h);
            } else {
                after.lemma_claim_taken(thread, Claim::Won, h);
            }
        }
        assert forall|j: int|
            0 <= j < n.spent.len() && n.nodes[(#[trigger] n.spent[j]) as int].inner is Some implies after.claimed(
            Claim::Won,
            n.spent[j],
        ) by {
            let h = n.spent[j];
            self.lemma_moves_sorts(after, thread, e, h);
            if m.spent.contains(h) {
                let i = choose|i: int| 0 <= i < m.spent.len() && m.spent[i] == h;
                assert(m.has(m.spent[i]));
                self.lemma_claim_kept(after, thread, Claim::Won, h);
            } else {
                after.lemma_claim_taken(thread, Claim::Won, h);
            }
        }
        assert forall|h: Handle| #[trigger] n.pending(h) implies after.claimed(Claim::Loose, h) by {
            self.lemma_moves_sorts(after, thread, e, h);
            if m.has(h) {
                assert(m.pending(h));
                self.lemma_claim_kept(after, thread, Claim::Loose, h);
            } else {
                after.lemma_claim_taken(thread, Claim::Loose, h);
            }
        }
        assert forall|i: int|
            0 <= i < n.pivot() && i < n.order.len() && !n.retired.contains(
                #[trigger] n.order[i],
            ) implies after.claimed(Claim::Unlinked, n.order[i]) by {
            let h = n.order[i];
            self.lemma_moves_sorts(after, thread, e, h);
            assert(m.order[i] == h);
            if i < m.pivot() {
                self.lemma_claim_kept(after, thread, Claim::Unlinked, h);
            } else {
                m.lemma_position_of(m.anchor);
                after.lemma_claim_taken(thread, Claim::Unlinked, h);
            }
        }
        assert forall|j: int|
            0 <= j < n.spent.len() && !n.retired.contains(#[trigger] n.spent[j]) implies after.claimed(
            Claim::Unlinked,
            n.spent[j],
        ) by {
            let h = n.spent[j];
            self.lemma_moves_sorts(after, thread, e, h);
            if m.spent.contains(h) {
                let i = choose|i: int| 0 <= i < m.spent.len() && m.spent[i] == h;
                assert(m.spent[i] == h);
                self.lemma_claim_kept(after, thread, Claim::Unlinked, h);
            } else {
                after.lemma_claim_taken(thread, Claim::Unlinked, h);
            }
        }
        if n.rear() < n.order.len() - 1 {
            if e.linked is Some {
                after.lemma_claim_taken(thread, Claim::Unswung, n.order.last());
            } else {
                self.lemma_claim_kept(after, thread, Claim::Unswung, m.order.last());
            }
        }
    }

    /// The counters still add up after a turn.
    #[verifier::rlimit(80)]
    #[verifier::spinoff_prover]
    pub proof fn lemma_moves_counted(self, after: World<T>, thread: int, e: Effect)
        requires
            self.coherent(),
            self.moves(after, thread, e),
        ensures
            after.counted(),
    {
        let m = self.memory;
        let s = self.threads[thread];
        let z = after.threads[thread];
        self.lemma_moves_positions(after, thread, e);
        lemma_debt_update(self.threads, thread, z);
        lemma_loose_update(self.threads, thread, z);
        lemma_sums_bounded(self.threads);
        assert(m.fits(s));
        assert(z.claims(Claim::Loose) == s.claims(Claim::Loose) || e.allocated || e.linked is Some
            || e.stacked is Some);
        assert(debt(after.threads) == debt(self.threads) - s.owes() + z.owes());
        assert(loose_nodes(after.threads) == loose_nodes(self.threads) - s.holds_loose()
            + z.holds_loose());
        lemma_tally_update(self.threads, thread, z, Claim::Unlinked);
        lemma_tally_update(self.threads, thread, z, Claim::Won);
        assert(z.claims(Claim::Won) == s.claims(Claim::Won) || e.advanced is Some || e.unstacked is Some
            || e.emptied is Some);
        assert(z.claims(Claim::Unlinked) == s.claims(Claim::Unlinked) || e.advanced is Some
            || e.unstacked is Some || e.retired is Some);
    }

    /// A turn with an effect keeps the world coherent.
    pub proof fn lemma_moves_coherent(self, after: World<T>, thread: int, e: Effect)
        requires
            self.coherent(),
            self.moves(after, thread, e),
        ensures
            after.coherent(),
    {
        self.lemma_moves_threaded(after, thread, e);
        assert forall|t: int| 0 <= t < after.threads.len() implies after.memory.fits(
            #[trigger] after.threads[t],
        ) by {
            if t != thread {
                self.lemma_moves_other_fits(after, thread, e, t);
            }
        }
        self.lemma_moves_exclusive(after, thread, e);
        self.lemma_moves_covered(after, thread, e);
        self.lemma_moves_counted(after, thread, e);
    }
}

} // verus!
