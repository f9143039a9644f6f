use vstd::prelude::*;
use crate::held::{lemma_held_nothing, lemma_held_one};
use crate::interleaving::coherence::Claim;
use crate::interleaving::fifo::{lemma_in_order, one_each};
use crate::interleaving::order::{begins, lemma_in_line, lemma_pick_take, pick};
use crate::interleaving::shelter::lemma_sheltered;
use crate::interleaving::world::{Turn, World};
use crate::machine::{Operation, PopFront};
use crate::node::Handle;

verus! {

/// A `prev` link, once set, never changes: whatever turn comes next, a node
/// that has a `prev` keeps it.
pub proof fn law_prev_is_set_once<T>(world: World<T>, turn: Turn<T>, handle: Handle)
    requires
        world.memory.has(handle),
        world.memory.nodes[handle as int].prev is Some,
    ensures
        world.next(turn).memory.has(handle),
        world.next(turn).memory.nodes[handle as int].prev == world.memory.nodes[handle as int].prev,
{
}

/// Nothing is lost and nothing is handed out twice, however the accesses of
/// the operations interleave: at any moment the values still in a node
/// together with the values handed out are exactly the values inserted.
pub proof fn law_interleaving_keeps_every_value<T>(threads: nat, turns: Seq<Turn<T>>)
    ensures
        World::<T>::initial(threads).execute(turns).balanced(),
    decreases turns.len(),
{
    let start = World::<T>::initial(threads);
    if turns.len() == 0 {
        assert(start.memory.all_slots() =~= seq![None]);
        lemma_held_one(None::<T>);
        assert(start.memory.stock().add(start.handed) =~= start.inserted);
    } else {
        law_interleaving_keeps_every_value::<T>(threads, turns.drop_last());
        start.execute(turns.drop_last()).lemma_turn_keeps_balance(turns.last());
    }
}

/// However the accesses of appends, insertions at the front and removals
/// interleave, the world they work in is coherent at every moment.
pub proof fn law_interleaving_is_coherent<T>(threads: nat, turns: Seq<Turn<T>>)
    requires
        threads <= usize::MAX,
    ensures
        World::<T>::initial(threads).execute(turns).coherent(),
    decreases turns.len(),
{
    let start = World::<T>::initial(threads);
    if turns.len() == 0 {
        World::<T>::lemma_initial_coherent(threads);
    } else {
        law_interleaving_is_coherent::<T>(threads, turns.drop_last());
        start.execute(turns.drop_last()).lemma_turn_keeps_coherent(turns.last());
    }
}

/// A payload has one owner: however the accesses of the operations
/// interleave, no two removals have won the same node, and a removal that
/// has won a node finds its payload in it when it comes to move it out.
pub proof fn law_payload_has_one_owner<T>(
    threads: nat,
    turns: Seq<Turn<T>>,
    thread: int,
    other: int,
)
    requires
        threads <= usize::MAX,
        World::<T>::initial(threads).execute(turns).runs(thread),
        World::<T>::initial(threads).execute(turns).runs(other),
        thread != other,
    ensures
        World::<T>::initial(threads).execute(turns).threads[thread].claims(Claim::Won) is Some
            ==> World::<T>::initial(threads).execute(turns).threads[thread].claims(Claim::Won)
            != World::<T>::initial(threads).execute(turns).threads[other].claims(Claim::Won),
        World::<T>::initial(threads).execute(turns).threads[thread] matches Operation::Pop(state)
            && (state is Consume || state is Take) ==> World::<T>::initial(threads).execute(
            turns,
        ).memory.yields(World::<T>::initial(threads).execute(turns).threads[thread]) is Some,
{
    let end = World::<T>::initial(threads).execute(turns);
    law_interleaving_is_coherent::<T>(threads, turns);
    assert(end.threads[thread].apart(end.threads[other]));
    assert(end.memory.fits(end.threads[thread]));
    match end.threads[thread] {
        Operation::Pop(PopFront::Consume { next, .. }) => {
            end.memory.lemma_sort_threaded(next);
        },
        Operation::Pop(PopFront::Take { head }) => {
            end.memory.lemma_sort_threaded(head);
        },
        _ => {},
    }
}

/// However the accesses of the operations interleave, every access is
/// admitted: the handles that an operation loads, swaps in and reads
/// through name allocated nodes.
pub proof fn law_every_access_is_admitted<T>(threads: nat, turns: Seq<Turn<T>>, thread: int)
    requires
        threads <= usize::MAX,
        World::<T>::initial(threads).execute(turns).runs(thread),
    ensures
        World::<T>::initial(threads).execute(turns).threads[thread].spec_action() matches Some(
            action,
        ) ==> World::<T>::initial(threads).execute(turns).memory.admits(action),
{
    let end = World::<T>::initial(threads).execute(turns);
    law_interleaving_is_coherent::<T>(threads, turns);
    assert(end.memory.fits(end.threads[thread]));
    end.memory.lemma_fits_admits(end.threads[thread]);
}

/// No operation waits for another: in whatever state the accesses of the
/// operations have left the list and the other operations, an operation
/// that goes on undisturbed is done within eleven accesses.
pub proof fn law_an_operation_left_alone_finishes<T>(
    threads: nat,
    turns: Seq<Turn<T>>,
    thread: int,
)
    requires
        threads <= usize::MAX,
        World::<T>::initial(threads).execute(turns).runs(thread),
    ensures
        World::<T>::initial(threads).execute(turns).memory.halts(
            World::<T>::initial(threads).execute(turns).threads[thread],
            11,
        ),
{
    let end = World::<T>::initial(threads).execute(turns);
    law_interleaving_is_coherent::<T>(threads, turns);
    end.lemma_finishes_alone(thread);
    end.memory.lemma_more_fuel(
        end.threads[thread],
        end.memory.distance(end.threads[thread]),
        11,
        None,
    );
}

/// Once every operation is done, however their accesses interleaved, the
/// list is at rest: every node is in the list or spent, the length counter
/// is the number of values held, exactly the nodes that have left the list
/// are retired, each once, and `tail` has caught up with the last node.
pub proof fn law_at_rest_after_interleaving<T>(threads: nat, turns: Seq<Turn<T>>)
    requires
        threads <= usize::MAX,
        World::<T>::initial(threads).execute(turns).at_rest(),
    ensures
        World::<T>::initial(threads).execute(turns).memory.wf(),
        World::<T>::initial(threads).execute(turns).memory.len == World::<T>::initial(
            threads,
        ).execute(turns).memory.elements().len(),
        World::<T>::initial(threads).execute(turns).memory.tail == World::<T>::initial(
            threads,
        ).execute(turns).memory.order.last(),
{
    law_interleaving_is_coherent::<T>(threads, turns);
    World::<T>::initial(threads).execute(turns).lemma_at_rest();
    World::<T>::initial(threads).execute(turns).memory.lemma_counted();
}

/// Once every operation is done, however their accesses interleaved, as
/// many nodes are retired as values were handed out: one for each removal
/// that returned a value, and none for any other call.
pub proof fn law_one_retirement_for_each_value_handed_out<T>(threads: nat, turns: Seq<Turn<T>>)
    requires
        threads <= usize::MAX,
        World::<T>::initial(threads).execute(turns).at_rest(),
    ensures
        World::<T>::initial(threads).execute(turns).memory.retired.len() == World::<T>::initial(
            threads,
        ).execute(turns).handed.len(),
        World::<T>::initial(threads).execute(turns).memory.retired.no_duplicates(),
{
    law_interleaving_is_coherent::<T>(threads, turns);
    World::<T>::initial(threads).execute(turns).lemma_at_rest();
}

/// Once every operation is done and the list holds nothing, however the
/// accesses of the operations interleaved, the values handed out are
/// exactly the values inserted.
pub proof fn law_drained_after_interleaving<T>(threads: nat, turns: Seq<Turn<T>>)
    requires
        threads <= usize::MAX,
        World::<T>::initial(threads).execute(turns).at_rest(),
        World::<T>::initial(threads).execute(turns).memory.elements().len() == 0,
    ensures
        World::<T>::initial(threads).execute(turns).handed == World::<T>::initial(
            threads,
        ).execute(turns).inserted,
{
    let end = World::<T>::initial(threads).execute(turns);
    let m = end.memory;
    law_at_rest_after_interleaving::<T>(threads, turns);
    law_interleaving_keeps_every_value::<T>(threads, turns);
    m.lemma_position_of(m.anchor);
    assert forall|h: int| 0 <= h < m.all_slots().len() implies (#[trigger] m.all_slots()[h]) is None by {
        let node = h as Handle;
        assert(m.has(node));
        assert(m.order.contains(node) || m.stack.contains(node) || m.spent.contains(node));
        m.lemma_sorts(node);
        if m.order.contains(node) {
            m.lemma_position_of(node);
            let i = m.position(node);
            assert(m.at(i).inner is Some <==> m.pivot() < i);
        }
    }
    lemma_held_nothing(m.all_slots());
    assert(end.handed =~= end.inserted);
}

/// At every moment, however the accesses of the operations interleave, no
/// node is retired twice and every retired node has left the list: neither
/// `head` nor `tail` refers to it.
pub proof fn law_retired_nodes_are_out_of_reach<T>(threads: nat, turns: Seq<Turn<T>>)
    requires
        threads <= usize::MAX,
    ensures
        World::<T>::initial(threads).execute(turns).memory.retired.no_duplicates(),
        forall|j: int|
            #![trigger World::<T>::initial(threads).execute(turns).memory.retired[j]]
            0 <= j < World::<T>::initial(threads).execute(turns).memory.retired.len()
                ==> World::<T>::initial(threads).execute(turns).memory.out_of_reach(
                World::<T>::initial(threads).execute(turns).memory.retired[j],
            ),
{
    let m = World::<T>::initial(threads).execute(turns).memory;
    law_interleaving_is_coherent::<T>(threads, turns);
    m.lemma_head();
    assert forall|j: int| 0 <= j < m.retired.len() implies m.out_of_reach(
        #[trigger] m.retired[j],
    ) by {
        let h = m.retired[j];
        assert(m.left(h));
        m.lemma_sort_threaded(h);
        m.lemma_sort_threaded(m.head);
        m.lemma_sort_threaded(m.tail);
    }
}

/// No operation touches a node that may have been freed: however the
/// accesses of the operations interleave, the node that an operation's
/// next access reads or writes is none of those that had been retired when
/// the operation began.
pub proof fn law_no_access_to_a_node_retired_before<T>(
    threads: nat,
    turns: Seq<Turn<T>>,
    thread: int,
    handle: Handle,
)
    requires
        threads <= usize::MAX,
        0 <= thread < threads,
        World::<T>::initial(threads).execute(turns).threads[thread].spec_action() matches Some(
            action,
        ) && action.touches(handle),
    ensures
        World::<T>::initial(threads).execute(turns).memory.spared(
            handle,
            World::<T>::initial(threads).execute(turns).since[thread],
        ),
{
    let end = World::<T>::initial(threads).execute(turns);
    lemma_sheltered::<T>(threads, turns);
    end.threads[thread].lemma_touches_what_it_holds(handle);
    assert(end.threads[thread].holds(handle));
}

/// First in, first out, between one producer and one consumer at work at
/// the same time: however their accesses interleave, the values delivered
/// so far, in the order of delivery, are the first of the values of the
/// producer's calls, in the order of the calls; and once both are done and
/// the list holds nothing, they are all of them.
pub proof fn law_first_in_first_out_interleaved<T>(
    threads: nat,
    turns: Seq<Turn<T>>,
    producer: int,
    consumer: int,
)
    requires
        threads <= usize::MAX,
        one_each(turns, producer, consumer),
    ensures
        World::<T>::initial(threads).execute(turns).delivered.len() <= World::<T>::initial(
            threads,
        ).execute(turns).called.len(),
        World::<T>::initial(threads).execute(turns).delivered == World::<T>::initial(
            threads,
        ).execute(turns).called.take(
            World::<T>::initial(threads).execute(turns).delivered.len() as int,
        ),
        World::<T>::initial(threads).execute(turns).at_rest() && World::<T>::initial(
            threads,
        ).execute(turns).memory.elements().len() == 0 ==> World::<T>::initial(threads).execute(
            turns,
        ).delivered == World::<T>::initial(threads).execute(turns).called,
{
    let end = World::<T>::initial(threads).execute(turns);
    lemma_in_order::<T>(threads, turns, producer, consumer);
    end.memory.lemma_head();
    assert(end.won.len() <= end.linked.len());
    assert(end.linked.len() <= end.called.len());
    assert(end.delivered.len() <= end.won.len());
    assert(end.delivered =~= end.called.take(end.delivered.len() as int));
    if end.at_rest() && end.memory.elements().len() == 0 {
        if end.runs(producer) {
            assert(end.threads[producer].done());
        }
        if end.runs(consumer) {
            assert(end.threads[consumer].done());
        }
        assert(end.won =~= end.linked);
        assert(end.delivered =~= end.called);
    }
}

/// Each producer's values keep the order of its calls: however the
/// accesses of any number of appends, insertions at the front and removals
/// interleave, the values that a thread has appended and that removals have
/// taken out of the list so far, in the order in which they were taken, are
/// the first of the values of that thread's appends, in the order of its
/// calls.
pub proof fn law_each_producer_keeps_its_order<T>(
    threads: nat,
    turns: Seq<Turn<T>>,
    producer: int,
)
    requires
        threads <= usize::MAX,
    ensures
        World::<T>::initial(threads).execute(turns).won.len() <= World::<T>::initial(
            threads,
        ).execute(turns).linkers.len(),
        begins(
            pick(
                World::<T>::initial(threads).execute(turns).won,
                World::<T>::initial(threads).execute(turns).linkers.take(
                    World::<T>::initial(threads).execute(turns).won.len() as int,
                ),
                producer,
            ),
            pick(
                World::<T>::initial(threads).execute(turns).called,
                World::<T>::initial(threads).execute(turns).callers,
                producer,
            ),
        ),
{
    let end = World::<T>::initial(threads).execute(turns);
    lemma_in_line::<T>(threads, turns);
    end.memory.lemma_head();
    let pivot = end.memory.pivot();
    lemma_pick_take(end.linked, end.linkers, pivot, producer);
    let taken = pick(end.won, end.linkers.take(pivot), producer);
    let linked = pick(end.linked, end.linkers, producer);
    let called = pick(end.called, end.callers, producer);
    assert(end.owed(producer) == called);
    assert(begins(linked, called)) by {
        if end.owed(producer) != linked {
            assert(called.take(linked.len() as int) =~= linked);
        } else {
            assert(called.take(linked.len() as int) =~= linked);
        }
    }
    assert(begins(taken, called)) by {
        assert(taken == linked.take(taken.len() as int));
        assert(taken =~= called.take(taken.len() as int)) by {
            assert forall|i: int| 0 <= i < taken.len() implies taken[i] == called[i] by {
                assert(linked.take(taken.len() as int)[i] == linked[i]);
                assert(called.take(linked.len() as int)[i] == called[i]);
            }
        }
    }
}

} // verus!
