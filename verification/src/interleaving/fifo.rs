use vstd::prelude::*;
use crate::interleaving::coherence::Claim;
use crate::machine::{Operation, PopFront, PushBack};
use crate::node::Handle;
use crate::interleaving::world::{Turn, World};

verus! {

/// Whether `turns` are those of one producer and one consumer: every append
/// is called by `producer`, every removal by `consumer`, and nothing is
/// inserted at the front.
pub open spec fn one_each<T>(turns: Seq<Turn<T>>, producer: int, consumer: int) -> bool {
    forall|i: int|
        0 <= i < turns.len() ==> match #[trigger] turns[i] {
            Turn::Append { thread, .. } => thread == producer,
            Turn::Prepend { .. } => false,
            Turn::Remove { thread } => thread == consumer,
            Turn::Step { .. } => true,
        }
}

impl<T> World<T> {
    /// What the records of a world with one producer and one consumer say
    /// of each other.
    ///
    /// Only the producer appends and only the consumer removes. The nodes
    /// behind the first hold, as long as they are filled, the values linked,
    /// in order; the values won are the values linked up to the anchor; the
    /// values linked are the values of the calls, but for the last while its
    /// node is loose; and the values delivered are the values won, but for
    /// the last while it is still in its node, which is then the anchor.
    pub open spec fn in_order(self, producer: int, consumer: int) -> bool {
        let m = self.memory;
        &&& forall|t: int|
            0 <= t < self.threads.len() && t != producer ==> !((
            #[trigger] self.threads[t]) is Back) || self.threads[t].done()
        &&& forall|t: int|
            0 <= t < self.threads.len() && t != consumer ==> !((
            #[trigger] self.threads[t]) is Pop) || self.threads[t].done()
        &&& forall|t: int|
            0 <= t < self.threads.len() ==> !((#[trigger] self.threads[t]) is Front)
                || self.threads[t].done()
        &&& m.stack.len() == 0
        &&& m.spent.len() == 0
        &&& self.linked.len() == m.order.len() - 1
        &&& forall|i: int|
            1 <= i < m.order.len() && (#[trigger] m.at(i)).inner is Some ==> m.at(i).inner
                == Some(self.linked[i - 1])
        &&& self.won == self.linked.take(m.pivot())
        &&& self.runs(producer) ==> match self.threads[producer].claims(Claim::Loose) {
            Some(new) => {
                &&& self.called.len() >= 1
                &&& self.linked == self.called.drop_last()
                &&& m.nodes[new as int].inner == Some(self.called.last())
            },
            None => self.linked == self.called,
        }
        &&& !self.runs(producer) ==> self.linked == self.called
        &&& self.runs(consumer) ==> match self.threads[consumer].claims(Claim::Won) {
            Some(next) => {
                &&& m.position(next) == m.pivot()
                &&& self.won.len() >= 1
                &&& self.delivered == self.won.drop_last()
            },
            None => self.delivered == self.won,
        }
        &&& !self.runs(consumer) ==> self.delivered == self.won
    }

    /// A step keeps the records in order.
    proof fn lemma_step_keeps_order(self, thread: int, producer: int, consumer: int)
        requires
            self.coherent(),
            self.in_order(producer, consumer),
            self.runs(thread),
        ensures
            self.next(Turn::Step { thread }).in_order(producer, consumer),
    {
        let after = self.next(Turn::Step { thread });
        let m = self.memory;
        let n = after.memory;
        let operation = self.threads[thread];
        let k = m.order.len() as int;
        let a = m.pivot();
        self.lemma_turn_keeps_coherent(Turn::Step { thread });
        assert(m.fits(operation));
        m.lemma_head();
        n.lemma_head();
        match operation {
            Operation::Back(PushBack::Link { new, onto }) => {
                m.lemma_position_of(onto);
                assert(m.has(m.order[m.position(onto)]));
                if m.nodes[onto as int].next is None {
                    assert(thread == producer);
                    m.lemma_position_pushed(n, new);
                    assert(m.loose(new));
                    let q = m.position(onto);
                    assert(m.at(q).next == m.after(q));
                    assert(after.linked =~= self.called);
                    assert(n.at(k).inner == Some(after.linked[k - 1]));
                    assert forall|i: int|
                        1 <= i < n.order.len() && (#[trigger] n.at(i)).inner is Some implies n.at(
                        i,
                    ).inner == Some(after.linked[i - 1]) by {
                        if i < k {
                            assert(m.has(m.order[i]));
                            assert(m.at(i).inner is Some);
                        }
                    }
                    assert(after.won =~= after.linked.take(n.pivot()));
                    if producer != consumer && self.runs(consumer) {
                        assert(after.threads[consumer] == self.threads[consumer]);
                    }
                } else {
                    self.lemma_order_unmoved(after, thread, producer, consumer);
                }
            },
            Operation::Pop(PopFront::Unlink { head, next }) => {
                m.lemma_position_of(next);
                m.lemma_position_of(head);
                assert(m.has(m.order[m.position(next)]));
                if m.head == head {
                    assert(thread == consumer);
                    assert(m.position(next) == a + 1);
                    assert(m.at(a + 1).inner is Some);
                    assert(n.pivot() == a + 1);
                    assert(after.won =~= after.linked.take(a + 1));
                    assert(after.won.drop_last() =~= self.won);
                    assert forall|i: int|
                        1 <= i < n.order.len() && (#[trigger] n.at(i)).inner is Some implies n.at(
                        i,
                    ).inner == Some(after.linked[i - 1]) by {
                        assert(m.at(i).inner is Some);
                    }
                    if producer != consumer && self.runs(producer) {
                        assert(after.threads[producer] == self.threads[producer]);
                    }
                } else {
                    self.lemma_order_unmoved(after, thread, producer, consumer);
                }
            },
            Operation::Pop(PopFront::Consume { next, .. }) => {
                assert(thread == consumer);
                m.lemma_position_of(next);
                assert(m.has(m.order[a]));
                assert(m.at(a).inner is Some);
                assert(after.delivered =~= self.won);
                assert forall|i: int|
                    1 <= i < n.order.len() && (#[trigger] n.at(i)).inner is Some implies n.at(
                    i,
                ).inner == Some(after.linked[i - 1]) by {
                    assert(m.has(m.order[i]));
                    assert(i != a);
                    assert(m.at(i).inner is Some);
                }
                if producer != consumer && self.runs(producer) {
                    assert(after.threads[producer] == self.threads[producer]);
                    let loose = self.threads[producer].claims(Claim::Loose);
                    if loose is Some {
                        assert(m.fits(self.threads[producer]));
                    }
                }
            },
            _ => {
                self.lemma_order_unmoved(after, thread, producer, consumer);
            },
        }
    }

    /// A step that neither links, nor moves `head`, nor moves a payload
    /// keeps the records in order.
    proof fn lemma_order_unmoved(self, after: World<T>, thread: int, producer: int, consumer: int)
        requires
            self.coherent(),
            self.in_order(producer, consumer),
            self.runs(thread),
            after == self.next(Turn::Step { thread }),
            after.coherent(),
            self.memory.links(self.threads[thread]) is None,
            self.memory.wins(self.threads[thread]) is None,
            self.memory.yields(self.threads[thread]) is None,
            after.memory.order == self.memory.order,
            after.memory.anchor == self.memory.anchor,
            after.memory.stack == self.memory.stack,
            after.memory.spent == self.memory.spent,
        ensures
            after.in_order(producer, consumer),
    {
        let m = self.memory;
        let n = after.memory;
        let operation = self.threads[thread];
        assert(m.fits(operation));
        assert forall|h: Handle| #[trigger] m.has(h) implies n.nodes[h as int].inner
            == m.nodes[h as int].inner by {}
        assert forall|i: int|
            1 <= i < n.order.len() && (#[trigger] n.at(i)).inner is Some implies n.at(i).inner
            == Some(after.linked[i - 1]) by {
            assert(m.has(m.order[i]));
            assert(m.at(i).inner is Some);
        }
        assert forall|t: int| 0 <= t < after.threads.len() && t != producer implies !((
        #[trigger] after.threads[t]) is Back) || after.threads[t].done() by {
            assert(!(self.threads[t] is Back) || self.threads[t].done());
        }
        assert forall|t: int| 0 <= t < after.threads.len() && t != consumer implies !((
        #[trigger] after.threads[t]) is Pop) || after.threads[t].done() by {
            assert(!(self.threads[t] is Pop) || self.threads[t].done());
        }
        assert forall|t: int| 0 <= t < after.threads.len() implies !((
        #[trigger] after.threads[t]) is Front) || after.threads[t].done() by {
            assert(!(self.threads[t] is Front) || self.threads[t].done());
        }
        if self.runs(producer) {
            let loose = self.threads[producer].claims(Claim::Loose);
            if loose is Some {
                assert(m.fits(self.threads[producer]));
                assert(m.has(loose->0));
            }
        }
    }

    /// A turn of one producer and one consumer keeps the records in order.
    proof fn lemma_turn_keeps_order(self, turn: Turn<T>, producer: int, consumer: int)
        requires
            self.coherent(),
            self.in_order(producer, consumer),
            match turn {
                Turn::Append { thread, .. } => thread == producer,
                Turn::Prepend { .. } => false,
                Turn::Remove { thread } => thread == consumer,
                Turn::Step { .. } => true,
            },
        ensures
            self.next(turn).in_order(producer, consumer),
    {
        let after = self.next(turn);
        let m = self.memory;
        let n = after.memory;
        m.lemma_head();
        match turn {
            Turn::Append { thread, .. } => {
                if self.idle(thread) && m.nodes.len() < usize::MAX {
                    assert(after.called.drop_last() =~= self.called);
                    assert forall|i: int|
                        1 <= i < n.order.len() && (#[trigger] n.at(i)).inner is Some implies n.at(
                        i,
                    ).inner == Some(after.linked[i - 1]) by {
                        assert(m.has(m.order[i]));
                        assert(m.at(i).inner is Some);
                    }
                    assert forall|t: int| 0 <= t < after.threads.len() && t != producer implies !((
                    #[trigger] after.threads[t]) is Back) || after.threads[t].done() by {
                        assert(!(self.threads[t] is Back) || self.threads[t].done());
                    }
                    assert forall|t: int| 0 <= t < after.threads.len() && t != consumer implies !((
                    #[trigger] after.threads[t]) is Pop) || after.threads[t].done() by {
                        assert(!(self.threads[t] is Pop) || self.threads[t].done());
                    }
                }
            },
            Turn::Prepend { .. } => {},
            Turn::Remove { thread } => {
                if self.idle(thread) {
                    assert forall|i: int|
                        1 <= i < n.order.len() && (#[trigger] n.at(i)).inner is Some implies n.at(
                        i,
                    ).inner == Some(after.linked[i - 1]) by {
                        assert(m.at(i).inner is Some);
                    }
                    assert forall|t: int| 0 <= t < after.threads.len() && t != producer implies !((
                    #[trigger] after.threads[t]) is Back) || after.threads[t].done() by {
                        assert(!(self.threads[t] is Back) || self.threads[t].done());
                    }
                    assert forall|t: int| 0 <= t < after.threads.len() && t != consumer implies !((
                    #[trigger] after.threads[t]) is Pop) || after.threads[t].done() by {
                        assert(!(self.threads[t] is Pop) || self.threads[t].done());
                    }
                }
            },
            Turn::Step { thread } => {
                if self.runs(thread) {
                    self.lemma_step_keeps_order(thread, producer, consumer);
                }
            },
        }
    }
}

/// The world of one producer and one consumer stays coherent and keeps its
/// records in order.
pub proof fn lemma_in_order<T>(threads: nat, turns: Seq<Turn<T>>, producer: int, consumer: int)
    requires
        threads <= usize::MAX,
        one_each(turns, producer, consumer),
    ensures
        World::<T>::initial(threads).execute(turns).coherent(),
        World::<T>::initial(threads).execute(turns).in_order(producer, consumer),
    decreases turns.len(),
{
    let start = World::<T>::initial(threads);
    if turns.len() == 0 {
        World::<T>::lemma_initial_coherent(threads);
        let m = start.memory;
        assert(m.order[0] == 0);
        m.lemma_position(0);
        assert(start.won =~= start.linked.take(m.pivot()));
    } else {
        assert(one_each(turns.drop_last(), producer, consumer)) by {
            assert forall|i: int| 0 <= i < turns.drop_last().len() implies match #[trigger] turns.drop_last()[i] {
                Turn::Append { thread, .. } => thread == producer,
                Turn::Prepend { .. } => false,
                Turn::Remove { thread } => thread == consumer,
                Turn::Step { .. } => true,
            } by {
                assert(turns[i] == turns.drop_last()[i]);
            }
        }
        lemma_in_order::<T>(threads, turns.drop_last(), producer, consumer);
        assert(turns.last() == turns[turns.len() - 1]);
        let before = start.execute(turns.drop_last());
        before.lemma_turn_keeps_order(turns.last(), producer, consumer);
        before.lemma_turn_keeps_coherent(turns.last());
    }
}

} // verus!
