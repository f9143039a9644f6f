use vstd::prelude::*;
use vstd::wrapping::usize_specs::{wrapping_add, wrapping_sub};
use crate::interleaving::coherence::Claim;
use crate::interleaving::world::World;
use crate::memory::Memory;
use crate::node::Handle;

verus! {

/// What one turn of a thread does to the shared state, in terms of the
/// record that the state keeps.
pub struct Effect {
    /// A node was allocated.
    pub allocated: bool,
    /// The node that was appended behind the last one.
    pub linked: Option<Handle>,
    /// The node that was put on top of the stack.
    pub stacked: Option<Handle>,
    /// The node that was taken off the stack.
    pub unstacked: Option<Handle>,
    /// The node that was the anchor before its successor became it.
    pub advanced: Option<Handle>,
    /// The node whose payload was moved out.
    pub emptied: Option<Handle>,
    /// The node that was retired.
    pub retired: Option<Handle>,
    /// The loose node whose `next` was stored.
    pub pointed: Option<Handle>,
    /// What was added to the length counter.
    pub counted: int,
}

impl Effect {
    /// What the effect adds to the number of values in the list.
    pub open spec fn grows(self) -> int {
        (if self.linked is Some {
            1int
        } else {
            0
        }) + (if self.stacked is Some {
            1int
        } else {
            0
        }) - (if self.unstacked is Some {
            1int
        } else {
            0
        }) - (if self.advanced is Some {
            1int
        } else {
            0
        })
    }
}

impl<T> Memory<T> {
    /// Appending to a sequence without duplicates keeps every node where it
    /// stood and puts the new one last.
    pub proof fn lemma_position_pushed(self, after: Memory<T>, new: Handle)
        requires
            self.order.no_duplicates(),
            !self.order.contains(new),
            after.order == self.order.push(new),
        ensures
            after.order.no_duplicates(),
            after.position(new) == self.order.len(),
            after.order.contains(new),
            forall|h: Handle| #[trigger]
                self.order.contains(h) ==> after.order.contains(h) && after.position(h)
                    == self.position(h),
            forall|h: Handle| #[trigger]
                after.order.contains(h) ==> self.order.contains(h) || h == new,
    {
        let count = self.order.len() as int;
        assert(after.order[count] == new);
        assert forall|i: int, j: int|
            0 <= i < after.order.len() && 0 <= j < after.order.len() && i != j implies after.order[i]
            != after.order[j] by {
            if i < count {
                assert(self.order[i] == after.order[i]);
            }
            if j < count {
                assert(self.order[j] == after.order[j]);
            }
        }
        after.lemma_position(count);
        assert forall|h: Handle| #[trigger] self.order.contains(h) implies after.order.contains(h)
            && after.position(h) == self.position(h) by {
            self.lemma_position_of(h);
            let i = self.position(h);
            assert(after.order[i] == h);
            after.lemma_position(i);
        }
        assert forall|h: Handle| #[trigger] after.order.contains(h) implies self.order.contains(h)
            || h == new by {
            after.lemma_position_of(h);
            let i = after.position(h);
            if i < count {
                assert(self.order[i] == h);
            }
        }
    }

    /// A node of the stack or among the spent is of that sort.
    pub proof fn lemma_sort_threaded(self, handle: Handle)
        requires
            self.threaded(),
        ensures
            self.order.contains(handle) ==> self.has(handle) && !self.nodes[handle as int].front,
            self.stack.contains(handle) ==> self.has(handle) && self.nodes[handle as int].front
                && !self.spent.contains(handle) && self.nodes[handle as int].inner is Some,
            self.spent.contains(handle) ==> self.has(handle) && self.nodes[handle as int].front,
            self.known(handle) ==> self.has(handle),
    {
        if self.order.contains(handle) {
            self.lemma_position_of(handle);
        }
        if self.stack.contains(handle) {
            let j = choose|j: int| 0 <= j < self.stack.len() && self.stack[j] == handle;
            assert(self.up(j).front);
        }
        if self.spent.contains(handle) {
            let j = choose|j: int| 0 <= j < self.spent.len() && self.spent[j] == handle;
            assert(self.has(self.spent[j]));
        }
    }
}

impl<T> World<T> {
    /// The turn of `thread` that leads from this world to `after` has the
    /// effect `e`, and the thread's operation has the claims to show for it.
    pub open spec fn moves(self, after: World<T>, thread: int, e: Effect) -> bool {
        let m = self.memory;
        let n = after.memory;
        let s = self.threads[thread];
        let z = after.threads[thread];
        &&& self.runs(thread)
        &&& after.threads == self.threads.update(thread, z)
        &&& n.fits(z)
        &&& n.nodes.len() == m.nodes.len() + (if e.allocated {
            1int
        } else {
            0
        })
        &&& n.nodes.len() <= usize::MAX
        &&& forall|h: Handle| #[trigger]
            m.has(h) ==> {
                &&& n.nodes[h as int].front == m.nodes[h as int].front
                &&& n.nodes[h as int].inner == m.nodes[h as int].inner || (e.emptied == Some(h)
                    && n.nodes[h as int].inner is None)
                &&& n.nodes[h as int].next == m.nodes[h as int].next || e.pointed == Some(h) || (
                e.linked is Some && h == m.order.last() && n.nodes[h as int].next == e.linked)
            }
        &&& e.allocated ==> n.loose(m.nodes.len() as Handle) && z.claims(Claim::Loose) == Some(
            m.nodes.len() as Handle,
        ) && s.done()
        &&& match e.linked {
            Some(x) => {
                &&& n.order == m.order.push(x)
                &&& s.claims(Claim::Loose) == Some(x)
                &&& !m.nodes[x as int].front
                &&& n.nodes[m.order.last() as int].next == Some(x)
                &&& m.rear() == m.order.len() - 1
                &&& z.claims(Claim::Unswung) == Some(x)
            },
            None => n.order == m.order,
        }
        &&& match e.stacked {
            Some(x) => {
                &&& n.stack == seq![x] + m.stack
                &&& n.head == x
                &&& s.claims(Claim::Loose) == Some(x)
                &&& m.nodes[x as int].front
                &&& n.nodes[x as int].next == Some(m.head)
                &&& e.unstacked is None
                &&& e.advanced is None
            },
            None => e.unstacked is None ==> n.stack == m.stack,
        }
        &&& match e.unstacked {
            Some(x) => {
                &&& m.stack.len() > 0
                &&& x == m.head
                &&& n.stack == m.stack.drop_first()
                &&& n.spent == m.spent.push(x)
                &&& n.head == m.below(0)
                &&& z.claims(Claim::Won) == Some(x)
                &&& z.claims(Claim::Unlinked) == Some(x)
                &&& e.advanced is None
            },
            None => n.spent == m.spent,
        }
        &&& match e.advanced {
            Some(gone) => {
                &&& gone == m.anchor
                &&& gone == m.head
                &&& m.stack.len() == 0
                &&& m.pivot() + 1 < m.order.len()
                &&& n.anchor == m.order[m.pivot() + 1]
                &&& n.head == n.anchor
                &&& z.claims(Claim::Won) == Some(n.anchor)
                &&& z.claims(Claim::Unlinked) == Some(gone)
            },
            None => n.anchor == m.anchor && (e.stacked is None && e.unstacked is None ==> n.head
                == m.head),
        }
        &&& n.tail == m.tail || m.follows(n.tail, m.tail)
        &&& match e.retired {
            Some(x) => {
                &&& n.retired == m.retired.push(x)
                &&& m.left(x)
                &&& !m.retired.contains(x)
                &&& s.claims(Claim::Unlinked) == Some(x)
                &&& z.claims(Claim::Unlinked) is None
            },
            None => n.retired == m.retired,
        }
        &&& e.emptied matches Some(x) ==> s.claims(Claim::Won) == Some(x) && z.claims(
            Claim::Won,
        ) is None && n.nodes[x as int].inner is None && (m.spent.contains(x) || (m.order.contains(x) && m.position(x) <= m.pivot()))
        &&& e.pointed matches Some(x) ==> s.claims(Claim::Loose) == Some(x) && m.pending(x)
            && m.nodes[x as int].front
        &&& forall|claim: Claim| #[trigger]
            z.claims(claim) == s.claims(claim) || match claim {
                Claim::Loose => e.allocated || ((e.linked is Some || e.stacked is Some) && z.claims(
                    claim,
                ) is None),
                Claim::Unswung => e.linked is Some || (z.claims(claim) is None && (n.rear()
                    == n.order.len() - 1 || s.claims(claim) != Some(m.order.last()))),
                Claim::Won => ((e.advanced is Some || e.unstacked is Some) && s.claims(
                    claim,
                ) is None) || e.emptied is Some,
                Claim::Unlinked => ((e.advanced is Some || e.unstacked is Some) && s.claims(
                    claim,
                ) is None) || e.retired is Some,
            }
        &&& after.handed.len() == self.handed.len() + (if e.emptied is Some {
            1int
        } else {
            0
        })
        &&& -1 <= e.counted <= 1
        &&& e.counted == 0 ==> n.len == m.len && z.owes() - s.owes() == e.grows()
        &&& e.counted == 1 ==> n.len == wrapping_add(m.len, 1) && s.owes() == 1 && z.owes() == 0
            && e.grows() == 0
        &&& e.counted == -1 ==> n.len == wrapping_sub(m.len, 1) && s.owes() == -1 && z.owes() == 0
            && e.grows() == 0
    }

    /// A claim outlives a turn of `thread` unless it was that thread's and
    /// the thread has given it up.
    pub proof fn lemma_claim_kept(
        self,
        after: World<T>,
        thread: int,
        claim: Claim,
        handle: Handle,
    )
        requires
            self.runs(thread),
            after.threads == self.threads.update(thread, after.threads[thread]),
            self.claimed(claim, handle),
            self.threads[thread].claims(claim) != Some(handle) || after.threads[thread].claims(
                claim,
            ) == Some(handle),
        ensures
            after.claimed(claim, handle),
    {
        let holder = choose|t: int|
            0 <= t < self.threads.len() && (#[trigger] self.threads[t]).claims(claim) == Some(
                handle,
            );
        assert(after.threads[holder].claims(claim) == Some(handle));
    }

    /// The thread that has taken the turn has the claim.
    pub proof fn lemma_claim_taken(self, thread: int, claim: Claim, handle: Handle)
        requires
            self.runs(thread),
            self.threads[thread].claims(claim) == Some(handle),
        ensures
            self.claimed(claim, handle),
    {
    }

    /// The positions after a turn: appended nodes stay where they stood, the
    /// anchor moves by one at most, and `tail` does not move back.
    pub proof fn lemma_moves_positions(self, after: World<T>, thread: int, e: Effect)
        requires
            self.coherent(),
            self.moves(after, thread, e),
        ensures
            after.memory.order.no_duplicates(),
            forall|h: Handle| #[trigger]
                self.memory.order.contains(h) ==> after.memory.order.contains(h)
                    && after.memory.position(h) == self.memory.position(h),
            forall|h: Handle| #[trigger]
                after.memory.order.contains(h) ==> self.memory.order.contains(h) || e.linked
                    == Some(h),
            e.linked matches Some(x) ==> after.memory.position(x) == self.memory.order.len()
                && !self.memory.known(x) && self.memory.has(x),
            after.memory.pivot() == self.memory.pivot() + (if e.advanced is Some {
                1int
            } else {
                0
            }),
            self.memory.rear() <= after.memory.rear() < after.memory.order.len(),
            after.memory.rear() <= self.memory.rear() + 1,
            0 <= self.memory.pivot() < self.memory.order.len(),
            0 <= self.memory.rear(),
    {
        let m = self.memory;
        let n = after.memory;
        m.lemma_position_of(m.anchor);
        m.lemma_position_of(m.tail);
        assert(m.fits(self.threads[thread]));
        if e.linked is Some {
            let x = e.linked->0;
            m.lemma_position_pushed(n, x);
        }
        if e.advanced is Some {
            assert(m.order.contains(n.anchor)) by {
                assert(m.order[m.pivot() + 1] == n.anchor);
            }
            m.lemma_position(m.pivot() + 1);
        }
        if n.tail != m.tail {
            m.lemma_position_of(n.tail);
        }
        n.lemma_position_of(n.tail);
    }
}

impl<T> World<T> {
    /// A turn keeps the shared state threaded.
    #[verifier::rlimit(80)]
    #[verifier::spinoff_prover]
    pub proof fn lemma_moves_threaded(self, after: World<T>, thread: int, e: Effect)
        requires
            self.coherent(),
            self.moves(after, thread, e),
        ensures
            after.memory.threaded(),
    {
        let m = self.memory;
        let n = after.memory;
        let k = m.order.len() as int;
        self.lemma_moves_positions(after, thread, e);
        assert(m.fits(self.threads[thread]));
        assert forall|i: int| 0 <= i < k implies n.order[i] == m.order[i] && m.has(m.order[i])
            && m.order.contains(m.order[i]) by {}
        assert forall|i: int| 0 <= i < n.order.len() implies n.has(#[trigger] n.order[i])
            && !n.nodes[n.order[i] as int].front by {
            if i < k {
                assert(m.has(m.order[i]));
            }
        }
        assert forall|i: int| 0 <= i < n.order.len() implies (#[trigger] n.at(i)).next == n.after(
            i,
        ) && (n.pivot() < i ==> n.at(i).inner is Some) by {
            if i < k {
                assert(m.at(i).next == m.after(i));
                assert(m.has(m.order[i]));
                m.lemma_sort_threaded(m.order[i]);
                m.lemma_position(i);
                if e.pointed is Some {
                    m.lemma_sort_threaded(e.pointed->0);
                }
                if e.emptied is Some && e.emptied->0 == m.order[i] {
                    m.lemma_sort_threaded(m.order[i]);
                }
            } else {
                assert(m.loose(n.order[i]));
            }
        }
        assert forall|j: int| 0 <= j < m.stack.len() implies m.has(#[trigger] m.stack[j])
            && m.stack.contains(m.stack[j]) by {}
        assert forall|j: int| 0 <= j < m.spent.len() implies m.has(#[trigger] m.spent[j])
            && m.spent.contains(m.spent[j]) by {}
        assert(n.stack.no_duplicates() && forall|j: int|
            0 <= j < n.stack.len() ==> m.stack.contains(#[trigger] n.stack[j]) || e.stacked
                == Some(n.stack[j])) by {
            if e.stacked is Some {
                let x = e.stacked->0;
                assert forall|j: int| 1 <= j < n.stack.len() implies n.stack[j] == m.stack[j - 1] by {}
                assert forall|j: int| 0 <= j < n.stack.len() implies m.stack.contains(
                    #[trigger] n.stack[j],
                ) || e.stacked == Some(n.stack[j]) by {
                    if j > 0 {
                        assert(m.stack[j - 1] == n.stack[j]);
                    }
                }
            } else if e.unstacked is Some {
                assert forall|j: int| 0 <= j < n.stack.len() implies n.stack[j] == m.stack[j + 1] by {}
                assert forall|j: int| 0 <= j < n.stack.len() implies m.stack.contains(
                    #[trigger] n.stack[j],
                ) || e.stacked == Some(n.stack[j]) by {
                    assert(m.stack[j + 1] == n.stack[j]);
                }
            }
        }
        assert forall|j: int| 0 <= j < n.stack.len() implies n.has(#[trigger] n.stack[j]) && n.up(
            j,
        ).front && n.up(j).inner is Some && n.up(j).next == Some(n.below(j)) by {
            let h = n.stack[j];
            if e.stacked is Some {
                if j > 0 {
                    assert(n.stack[j] == m.stack[j - 1]);
                    if j + 1 < n.stack.len() {
                        assert(n.stack[j + 1] == m.stack[j]);
                    }
                    assert(m.up(j - 1).next == Some(m.below(j - 1)));
                    m.lemma_sort_threaded(m.stack[j - 1]);
                } else {
                    assert(n.stack[0] == e.stacked->0);
                    if n.stack.len() > 1 {
                        assert(n.stack[1] == m.stack[0]);
                    }
                    assert(m.pending(h));
                    assert(m.loose(h));
                }
            } else if e.unstacked is Some {
                assert(n.stack[j] == m.stack[j + 1]);
                if j + 1 < n.stack.len() {
                    assert(n.stack[j + 1] == m.stack[j + 2]);
                }
                assert(m.up(j + 1).next == Some(m.below(j + 1)));
                m.lemma_sort_threaded(m.stack[j + 1]);
            } else {
                assert(m.up(j).next == Some(m.below(j)));
                m.lemma_sort_threaded(m.stack[j]);
            }
            if e.emptied is Some {
                m.lemma_sort_threaded(e.emptied->0);
            }
            m.lemma_sort_threaded(m.order[k - 1]);
        }
        assert(n.head == n.top()) by {
            if e.unstacked is Some {
                assert(m.up(0).next == Some(m.below(0)));
            }
        }
        assert(n.spent.no_duplicates() && forall|j: int|
            0 <= j < n.spent.len() ==> m.spent.contains(#[trigger] n.spent[j]) || e.unstacked
                == Some(n.spent[j])) by {
            if e.unstacked is Some {
                let x = e.unstacked->0;
                assert(m.stack[0] == x);
                m.lemma_sort_threaded(x);
                assert forall|j: int| 0 <= j < m.spent.len() implies n.spent[j] == m.spent[j] by {}
                assert forall|i: int, j: int|
                    0 <= i < n.spent.len() && 0 <= j < n.spent.len() && i != j implies n.spent[i]
                    != n.spent[j] by {
                    if i < m.spent.len() {
                        assert(m.spent.contains(m.spent[i]));
                    }
                    if j < m.spent.len() {
                        assert(m.spent.contains(m.spent[j]));
                    }
                }
            }
        }
        assert forall|j: int| 0 <= j < n.spent.len() implies n.has(#[trigger] n.spent[j])
            && n.nodes[n.spent[j] as int].front && !n.stack.contains(n.spent[j])
            && n.nodes[n.spent[j] as int].next is Some && n.has(
            n.nodes[n.spent[j] as int].next->0,
        ) by {
            let h = n.spent[j];
            m.lemma_sort_threaded(h);
            m.lemma_sort_threaded(m.order[k - 1]);
            if m.spent.contains(h) {
                let i = choose|i: int| 0 <= i < m.spent.len() && m.spent[i] == h;
                assert(m.has(m.nodes[m.spent[i] as int].next->0));
            } else {
                assert(m.up(0).next == Some(m.below(0)));
                if m.stack.len() > 1 {
                    assert(m.has(m.stack[1]));
                }
            }
            if n.stack.contains(h) {
                let i = choose|i: int| 0 <= i < n.stack.len() && n.stack[i] == h;
                assert(m.stack.contains(n.stack[i]) || e.stacked == Some(n.stack[i]));
            }
            if e.pointed is Some {
                m.lemma_sort_threaded(e.pointed->0);
            }
        }
        assert forall|h: Handle| n.pending(h) implies #[trigger] n.loose(h) by {
            if m.has(h) {
                assert(m.pending(h)) by {
                    if m.order.contains(h) {
                        assert(n.order.contains(h));
                    }
                    if m.stack.contains(h) {
                        m.lemma_sort_threaded(h);
                        if e.unstacked is Some {
                            let i = choose|i: int| 0 <= i < m.stack.len() && m.stack[i] == h;
                            if i > 0 {
                                assert(n.stack[i - 1] == h);
                            } else {
                                assert(n.spent[m.spent.len() as int] == h);
                            }
                        } else if e.stacked is Some {
                            let i = choose|i: int| 0 <= i < m.stack.len() && m.stack[i] == h;
                            assert(n.stack[i + 1] == h);
                        }
                    }
                    if m.spent.contains(h) {
                        let i = choose|i: int| 0 <= i < m.spent.len() && m.spent[i] == h;
                        assert(n.spent[i] == h);
                    }
                }
                assert(m.loose(h));
                m.lemma_sort_threaded(m.order[k - 1]);
                if e.emptied is Some {
                    m.lemma_sort_threaded(e.emptied->0);
                }
            }
        }
        assert(n.retired.no_duplicates()) by {
            if e.retired is Some {
                let count = m.retired.len() as int;
                assert forall|i: int, j: int|
                    0 <= i < n.retired.len() && 0 <= j < n.retired.len() && i != j implies n.retired[i]
                    != n.retired[j] by {
                    if i < count {
                        assert(m.retired[i] == n.retired[i]);
                    }
                    if j < count {
                        assert(m.retired[j] == n.retired[j]);
                    }
                }
            }
        }
        assert forall|j: int| 0 <= j < n.retired.len() implies n.left(#[trigger] n.retired[j]) by {
            let h = n.retired[j];
            assert(m.left(h)) by {
                if j < m.retired.len() {
                    assert(m.left(m.retired[j]));
                }
            }
            if m.spent.contains(h) {
                let i = choose|i: int| 0 <= i < m.spent.len() && m.spent[i] == h;
                assert(n.spent[i] == h);
            }
        }
    }
}

} // verus!
