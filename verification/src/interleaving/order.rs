use vstd::prelude::*;
use crate::interleaving::coherence::Claim;
use crate::interleaving::world::{Turn, World};
use crate::node::Handle;

verus! {

/// Those of `values` that belong to the thread `thread`, in their order,
/// where `who` names the thread of each.
pub open spec fn pick<T>(values: Seq<T>, who: Seq<int>, thread: int) -> Seq<T>
    decreases values.len(),
{
    if values.len() == 0 {
        Seq::empty()
    } else if who.last() == thread {
        pick(values.drop_last(), who.drop_last(), thread).push(values.last())
    } else {
        pick(values.drop_last(), who.drop_last(), thread)
    }
}

/// Whether `short` is the beginning of `long`.
pub open spec fn begins<T>(short: Seq<T>, long: Seq<T>) -> bool {
    short.len() <= long.len() && short == long.take(short.len() as int)
}

/// One more value is picked exactly if it belongs to the thread.
pub proof fn lemma_pick_push<T>(values: Seq<T>, who: Seq<int>, value: T, by: int, thread: int)
    ensures
        pick(values.push(value), who.push(by), thread) == (if by == thread {
            pick(values, who, thread).push(value)
        } else {
            pick(values, who, thread)
        }),
{
    assert(values.push(value).drop_last() =~= values);
    assert(who.push(by).drop_last() =~= who);
}

/// What is picked from a beginning is a beginning of what is picked.
pub proof fn lemma_pick_take<T>(values: Seq<T>, who: Seq<int>, n: int, thread: int)
    requires
        0 <= n <= values.len(),
        who.len() == values.len(),
    ensures
        begins(pick(values.take(n), who.take(n), thread), pick(values, who, thread)),
    decreases values.len() - n,
{
    if n == values.len() {
        assert(values.take(n) =~= values);
        assert(who.take(n) =~= who);
        assert(pick(values, who, thread).take(pick(values, who, thread).len() as int) =~= pick(
            values,
            who,
            thread,
        ));
    } else {
        lemma_pick_take(values, who, n + 1, thread);
        assert(values.take(n + 1) =~= values.take(n).push(values[n]));
        assert(who.take(n + 1) =~= who.take(n).push(who[n]));
        lemma_pick_push(values.take(n), who.take(n), values[n], who[n], thread);
        let short = pick(values.take(n), who.take(n), thread);
        let mid = pick(values.take(n + 1), who.take(n + 1), thread);
        let long = pick(values, who, thread);
        assert(short =~= long.take(short.len() as int)) by {
            assert(mid == long.take(mid.len() as int));
            assert forall|i: int| 0 <= i < short.len() implies short[i] == long[i] by {
                assert(mid[i] == long.take(mid.len() as int)[i]);
            }
        }
    }
}

impl<T> World<T> {
    /// What the records of appends say of each other, whoever is at work.
    ///
    /// The appended nodes behind the first hold, as long as they are filled,
    /// the values linked, in order; the values won are the values linked up
    /// to the anchor; and the values that a thread has linked are the values
    /// of its calls, but for the last while its node is loose.
    pub open spec fn in_line(self) -> bool {
        let m = self.memory;
        &&& self.linked.len() == m.order.len() - 1
        &&& self.linkers.len() == self.linked.len()
        &&& self.callers.len() == self.called.len()
        &&& forall|i: int|
            1 <= i < m.order.len() && (#[trigger] m.at(i)).inner is Some ==> m.at(i).inner
                == Some(self.linked[i - 1])
        &&& self.won == self.linked.take(m.pivot())
        &&& forall|t: int| #[trigger]
            self.owed(t) == pick(self.called, self.callers, t)
    }

    /// The values that the thread has linked, and the one in its loose node
    /// if it is appending and has not linked it yet.
    pub open spec fn owed(self, thread: int) -> Seq<T> {
        if self.runs(thread) && self.threads[thread] is Back && self.threads[thread].claims(
            Claim::Loose,
        ) is Some {
            pick(self.linked, self.linkers, thread).push(
                self.memory.nodes[self.threads[thread].claims(Claim::Loose)->0 as int].inner->0,
            )
        } else {
            pick(self.linked, self.linkers, thread)
        }
    }

    /// A turn keeps the records of appends in line.
    #[verifier::rlimit(100)]
    #[verifier::spinoff_prover]
    pub proof fn lemma_turn_keeps_line(self, turn: Turn<T>)
        requires
            self.coherent(),
            self.in_line(),
        ensures
            self.next(turn).in_line(),
    {
        let after = self.next(turn);
        let m = self.memory;
        let n = after.memory;
        let k = m.order.len() as int;
        let a = m.pivot();
        self.lemma_turn_keeps_coherent(turn);
        m.lemma_head();
        n.lemma_head();
        assert forall|h: Handle| m.known(h) implies m.has(h) by {
            m.lemma_sort_threaded(h);
        }
        match turn {
            Turn::Append { thread, value } => {
                if self.idle(thread) && m.nodes.len() < usize::MAX {
                    assert forall|i: int|
                        1 <= i < n.order.len() && (#[trigger] n.at(i)).inner is Some implies n.at(
                        i,
                    ).inner == Some(after.linked[i - 1]) by {
                        assert(m.has(m.order[i]));
                        assert(m.at(i).inner is Some);
                    }
                    assert forall|t: int| #[trigger]
                        after.owed(t) == pick(after.called, after.callers, t) by {
                        lemma_pick_push(self.called, self.callers, value, thread, t);
                        assert(self.owed(t) == pick(self.called, self.callers, t));
                        if t != thread && self.runs(t) {
                            assert(after.threads[t] == self.threads[t]);
                            assert(m.fits(self.threads[t]));
                        }
                    }
                }
            },
            Turn::Prepend { thread, .. } => {
                if self.idle(thread) && m.nodes.len() < usize::MAX {
                    assert forall|i: int|
                        1 <= i < n.order.len() && (#[trigger] n.at(i)).inner is Some implies n.at(
                        i,
                    ).inner == Some(after.linked[i - 1]) by {
                        assert(m.has(m.order[i]));
                        assert(m.at(i).inner is Some);
                    }
                    assert forall|t: int| #[trigger]
                        after.owed(t) == pick(after.called, after.callers, t) by {
                        assert(self.owed(t) == pick(self.called, self.callers, t));
                        if t != thread && self.runs(t) {
                            assert(after.threads[t] == self.threads[t]);
                            assert(m.fits(self.threads[t]));
                        }
                    }
                }
            },
            Turn::Remove { thread } => {
                if self.idle(thread) {
                    assert forall|i: int|
                        1 <= i < n.order.len() && (#[trigger] n.at(i)).inner is Some implies n.at(
                        i,
                    ).inner == Some(after.linked[i - 1]) by {
                        assert(m.at(i).inner is Some);
                    }
                    assert forall|t: int| #[trigger]
                        after.owed(t) == pick(after.called, after.callers, t) by {
                        assert(self.owed(t) == pick(self.called, self.callers, t));
                        if t != thread && self.runs(t) {
                            assert(after.threads[t] == self.threads[t]);
                        }
                    }
                }
            },
            Turn::Step { thread } => {
                if self.runs(thread) {
                    self.lemma_step_keeps_line(thread);
                }
            },
        }
    }

    /// A step keeps the records of appends in line.
    #[verifier::rlimit(100)]
    #[verifier::spinoff_prover]
    proof fn lemma_step_keeps_line(self, thread: int)
        requires
            self.coherent(),
            self.in_line(),
            self.runs(thread),
            self.next(Turn::Step { thread }).coherent(),
        ensures
            self.next(Turn::Step { thread }).in_line(),
    {
        let after = self.next(Turn::Step { thread });
        let m = self.memory;
        let n = after.memory;
        let k = m.order.len() as int;
        let a = m.pivot();
        let operation = self.threads[thread];
        assert(m.fits(operation));
        m.lemma_fits_admits(operation);
        m.lemma_head();
        n.lemma_head();
        assert forall|h: Handle| #[trigger] m.has(h) implies n.nodes[h as int].inner
            == m.nodes[h as int].inner || (m.gives(operation.spec_action()->0) is Some
            && n.nodes[h as int].inner is None && operation.claims(Claim::Won) == Some(h)) by {}
        let linked_now = m.links(operation) is Some;
        if linked_now {
            let new = operation.claims(Claim::Loose)->0;
            let onto = operation->Back_0->Link_onto;
            m.lemma_position_of(onto);
            m.lemma_sort_threaded(onto);
            let q = m.position(onto);
            assert(m.at(q).next == m.after(q));
            assert(n.order =~= m.order.push(new));
            m.lemma_position_pushed(n, new);
            assert(m.loose(new));
            assert(n.at(k).inner == Some(after.linked[k - 1]));
        } else {
            assert(n.order == m.order);
        }
        assert forall|i: int|
            1 <= i < n.order.len() && (#[trigger] n.at(i)).inner is Some implies n.at(i).inner
            == Some(after.linked[i - 1]) by {
            if i < k {
                assert(m.has(m.order[i]));
                assert(n.order[i] == m.order[i]);
                assert(m.at(i).inner is Some);
            }
        }
        if m.wins(operation) is Some {
            let next = operation->Pop_0->Unlink_next;
            m.lemma_position_of(next);
            m.lemma_sort_threaded(next);
            assert(m.order.contains(m.head));
            assert(m.position(next) == a + 1);
            assert(m.at(a + 1).inner is Some);
            n.lemma_position(a + 1);
            assert(after.won =~= after.linked.take(n.pivot()));
        } else {
            assert(n.pivot() == a) by {
                if n.anchor != m.anchor {
                    assert(m.wins(operation) is Some);
                }
            }
            assert(after.won =~= after.linked.take(n.pivot()));
        }
        assert forall|t: int| #[trigger] after.owed(t) == pick(after.called, after.callers, t) by {
            assert(self.owed(t) == pick(self.called, self.callers, t));
            if linked_now {
                lemma_pick_push(
                    self.linked,
                    self.linkers,
                    m.links(operation)->0,
                    thread,
                    t,
                );
            }
            if self.runs(t) && t != thread {
                assert(after.threads[t] == self.threads[t]);
                assert(m.fits(self.threads[t]));
                assert(operation.apart(self.threads[t]));
                assert(self.threads[t].apart(operation));
                if self.threads[t].claims(Claim::Loose) is Some {
                    let loose = self.threads[t].claims(Claim::Loose)->0;
                    assert(m.pending(loose));
                    m.lemma_sort_threaded(loose);
                    if operation.claims(Claim::Won) == Some(loose) {
                        m.lemma_sort_threaded(loose);
                    }
                }
            } else if t == thread {
                if operation.claims(Claim::Loose) is Some {
                    let loose = operation.claims(Claim::Loose)->0;
                    assert(m.pending(loose));
                }
            }
        }
    }
}

/// The world stays coherent and keeps the records of appends in line.
pub proof fn lemma_in_line<T>(threads: nat, turns: Seq<Turn<T>>)
    requires
        threads <= usize::MAX,
    ensures
        World::<T>::initial(threads).execute(turns).coherent(),
        World::<T>::initial(threads).execute(turns).in_line(),
    decreases turns.len(),
{
    let start = World::<T>::initial(threads);
    crate::interleaving::laws::law_interleaving_is_coherent::<T>(threads, turns);
    if turns.len() == 0 {
        let m = start.memory;
        assert(m.order[0] == 0);
        m.lemma_position(0);
        assert(start.won =~= start.linked.take(m.pivot()));
        assert forall|t: int| #[trigger] start.owed(t) == pick(start.called, start.callers, t) by {}
    } else {
        lemma_in_line::<T>(threads, turns.drop_last());
        start.execute(turns.drop_last()).lemma_turn_keeps_line(turns.last());
    }
}

} // verus!
