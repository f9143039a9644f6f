use vstd::prelude::*;
use crate::interleaving::world::World;
use crate::machine::{Operation, PopFront, PushBack, PushFront};
use crate::memory::Memory;
use crate::node::Handle;

verus! {

/// The claims an operation in flight can have on a node.
pub enum Claim {
    /// An insertion has allocated the node and not linked it yet.
    Loose,
    /// A removal has taken the node's payload out of the list and not moved
    /// it out of the node yet.
    Won,
    /// A removal has taken the node out of the list and not retired it yet.
    Unlinked,
    /// An append has linked the node and not tried to move `tail` to it yet.
    Unswung,
}

impl Operation {
    /// The node on which the operation has the claim `claim`, if any.
    pub open spec fn claims(self, claim: Claim) -> Option<Handle> {
        match (claim, self) {
            (Claim::Loose, Operation::Back(PushBack::LoadTail { new })) => Some(new),
            (Claim::Loose, Operation::Back(PushBack::LoadNext { new, .. })) => Some(new),
            (Claim::Loose, Operation::Back(PushBack::Help { new, .. })) => Some(new),
            (Claim::Loose, Operation::Back(PushBack::Link { new, .. })) => Some(new),
            (Claim::Loose, Operation::Front(PushFront::LoadHead { new })) => Some(new),
            (Claim::Loose, Operation::Front(PushFront::SetNext { new, .. })) => Some(new),
            (Claim::Loose, Operation::Front(PushFront::Link { new, .. })) => Some(new),
            (Claim::Unswung, Operation::Back(PushBack::SetPrev { new, .. })) => Some(new),
            (Claim::Unswung, Operation::Back(PushBack::Swing { new, .. })) => Some(new),
            (Claim::Won, Operation::Pop(PopFront::Take { head })) => Some(head),
            (Claim::Won, Operation::Pop(PopFront::LoadTail { next, .. })) => Some(next),
            (Claim::Won, Operation::Pop(PopFront::Help { next, .. })) => Some(next),
            (Claim::Won, Operation::Pop(PopFront::Consume { next, .. })) => Some(next),
            (Claim::Unlinked, Operation::Pop(PopFront::Take { head })) => Some(head),
            (Claim::Unlinked, Operation::Pop(PopFront::LoadTail { head, .. })) => Some(head),
            (Claim::Unlinked, Operation::Pop(PopFront::Help { head, .. })) => Some(head),
            (Claim::Unlinked, Operation::Pop(PopFront::Consume { head, .. })) => Some(head),
            (Claim::Unlinked, Operation::Pop(PopFront::Retire { head })) => Some(head),
            _ => None,
        }
    }

    /// What the operation still owes the length counter: one more for an
    /// insertion that has linked its node, one less for a removal that has
    /// taken a node out.
    pub open spec fn owes(self) -> int {
        match self {
            Operation::Back(PushBack::SetPrev { .. }) => 1,
            Operation::Back(PushBack::Swing { .. }) => 1,
            Operation::Back(PushBack::Count) => 1,
            Operation::Front(PushFront::SetPrev { .. }) => 1,
            Operation::Front(PushFront::Count) => 1,
            Operation::Pop(PopFront::Take { .. }) => -1,
            Operation::Pop(PopFront::LoadTail { .. }) => -1,
            Operation::Pop(PopFront::Help { .. }) => -1,
            Operation::Pop(PopFront::Consume { .. }) => -1,
            Operation::Pop(PopFront::Retire { .. }) => -1,
            Operation::Pop(PopFront::Count) => -1,
            _ => 0,
        }
    }

    /// One for an insertion whose node is not linked yet.
    pub open spec fn holds_loose(self) -> int {
        if self.claims(Claim::Loose) is Some {
            1
        } else {
            0
        }
    }

    /// No two operations have the same claim on the same node.
    pub open spec fn apart(self, other: Operation) -> bool {
        forall|claim: Claim|
            (#[trigger] self.claims(claim)) is Some ==> self.claims(claim) != other.claims(claim)
    }
}

/// What the operations of `threads` owe the length counter, in sum.
pub open spec fn debt(threads: Seq<Operation>) -> int
    decreases threads.len(),
{
    if threads.len() == 0 {
        0
    } else {
        debt(threads.drop_last()) + threads.last().owes()
    }
}

/// The number of nodes that insertions of `threads` have not linked yet.
pub open spec fn loose_nodes(threads: Seq<Operation>) -> int
    decreases threads.len(),
{
    if threads.len() == 0 {
        0
    } else {
        loose_nodes(threads.drop_last()) + threads.last().holds_loose()
    }
}

/// The number of operations of `threads` that have the claim `claim` on
/// some node.
pub open spec fn tally(threads: Seq<Operation>, claim: Claim) -> int
    decreases threads.len(),
{
    if threads.len() == 0 {
        0
    } else {
        tally(threads.drop_last(), claim) + (if threads.last().claims(claim) is Some {
            1int
        } else {
            0
        })
    }
}

/// The value of a counter that wraps, for a count that is off by less than
/// one full turn.
pub open spec fn wrapped(count: int) -> int {
    if count < 0 {
        count + usize::MAX + 1
    } else if count > usize::MAX {
        count - usize::MAX - 1
    } else {
        count
    }
}

impl<T> Memory<T> {
    /// The node has been linked: it is appended, stacked or spent.
    pub open spec fn known(self, handle: Handle) -> bool {
        self.order.contains(handle) || self.stack.contains(handle) || self.spent.contains(handle)
    }

    /// The node is allocated and has not been linked.
    pub open spec fn pending(self, handle: Handle) -> bool {
        self.has(handle) && !self.known(handle)
    }

    /// The node is filled, and has no successor unless it is to go in front.
    pub open spec fn loose(self, handle: Handle) -> bool {
        &&& self.nodes[handle as int].inner is Some
        &&& !self.nodes[handle as int].front ==> self.nodes[handle as int].next is None
    }

    /// Both nodes are appended, `next` right behind `onto`.
    pub open spec fn follows(self, next: Handle, onto: Handle) -> bool {
        &&& self.order.contains(onto)
        &&& self.order.contains(next)
        &&& self.position(next) == self.position(onto) + 1
    }

    /// The node has left the list, in front of both the anchor and the node
    /// that `tail` refers to, or from the stack.
    pub open spec fn left(self, handle: Handle) -> bool {
        ||| self.order.contains(handle) && self.position(handle) < self.pivot() && self.position(
            handle,
        ) < self.rear()
        ||| self.spent.contains(handle)
    }

    /// What holds of the shared state at every moment while operations are
    /// at work.
    ///
    /// `order` names allocated nodes that were appended, none twice, linked
    /// by `next`, those behind the anchor filled; `tail` refers to the last
    /// of them or the one before; the stack names allocated, filled nodes
    /// that were put in front, none twice, linked by `next` down to the
    /// anchor; `head` refers to the frontmost node; the spent nodes were put
    /// in front, are none twice and not stacked, and keep their successor; a
    /// node that is not linked is loose; and the retired nodes are distinct
    /// nodes that have left the list.
    pub open spec fn threaded(self) -> bool {
        &&& self.nodes.len() <= usize::MAX
        &&& forall|i: int|
            0 <= i < self.order.len() ==> self.has(#[trigger] self.order[i])
                && !self.nodes[self.order[i] as int].front
        &&& self.order.no_duplicates()
        &&& forall|i: int|
            0 <= i < self.order.len() ==> (#[trigger] self.at(i)).next == self.after(i) && (
            self.pivot() < i ==> self.at(i).inner is Some)
        &&& self.order.contains(self.anchor)
        &&& self.order.contains(self.tail)
        &&& self.order.len() - 2 <= self.rear()
        &&& self.stack.no_duplicates()
        &&& forall|j: int|
            0 <= j < self.stack.len() ==> self.has(#[trigger] self.stack[j]) && self.up(j).front
                && self.up(j).inner is Some && self.up(j).next == Some(self.below(j))
        &&& self.head == self.top()
        &&& self.spent.no_duplicates()
        &&& forall|j: int|
            0 <= j < self.spent.len() ==> self.has(#[trigger] self.spent[j])
                && self.nodes[self.spent[j] as int].front && !self.stack.contains(self.spent[j])
                && self.nodes[self.spent[j] as int].next is Some && self.has(
                self.nodes[self.spent[j] as int].next->0,
            )
        &&& forall|h: Handle| self.pending(h) ==> #[trigger] self.loose(h)
        &&& self.retired.no_duplicates()
        &&& forall|j: int| 0 <= j < self.retired.len() ==> self.left(#[trigger] self.retired[j])
    }

    /// What an operation in flight knows of the shared state, and what stays
    /// true of it whatever the other operations do.
    pub open spec fn fits(self, operation: Operation) -> bool {
        match operation {
            Operation::Back(PushBack::LoadTail { new }) => self.pending(new)
                && !self.nodes[new as int].front,
            Operation::Back(PushBack::LoadNext { new, onto }) => {
                &&& self.pending(new)
                &&& !self.nodes[new as int].front
                &&& self.order.contains(onto)
                &&& self.position(onto) <= self.rear()
            },
            Operation::Back(PushBack::Help { new, onto, next }) => {
                &&& self.pending(new)
                &&& !self.nodes[new as int].front
                &&& self.follows(next, onto)
            },
            Operation::Back(PushBack::Link { new, onto }) => {
                &&& self.pending(new)
                &&& !self.nodes[new as int].front
                &&& self.order.contains(onto)
                &&& self.position(onto) <= self.rear()
            },
            Operation::Back(PushBack::SetPrev { new, onto }) => {
                &&& self.follows(new, onto)
                &&& self.position(onto) <= self.rear()
            },
            Operation::Back(PushBack::Swing { new, onto }) => {
                &&& self.follows(new, onto)
                &&& self.position(onto) <= self.rear()
            },
            Operation::Back(PushBack::Count) => true,
            Operation::Back(PushBack::Done) => true,
            Operation::Front(PushFront::LoadHead { new }) => self.pending(new)
                && self.nodes[new as int].front,
            Operation::Front(PushFront::SetNext { new, onto }) => {
                &&& self.pending(new)
                &&& self.nodes[new as int].front
                &&& self.has(onto)
            },
            Operation::Front(PushFront::Link { new, onto }) => {
                &&& self.pending(new)
                &&& self.nodes[new as int].front
                &&& self.has(onto)
                &&& self.nodes[new as int].next == Some(onto)
            },
            Operation::Front(PushFront::SetPrev { new, onto }) => self.has(new) && self.has(onto),
            Operation::Front(PushFront::Count) => true,
            Operation::Front(PushFront::Done) => true,
            Operation::Pop(PopFront::LoadHead) => true,
            Operation::Pop(PopFront::Inspect { head }) => {
                &&& self.known(head)
                &&& self.order.contains(head) ==> self.position(head) <= self.pivot()
            },
            Operation::Pop(PopFront::Unstack { head, next }) => {
                &&& self.stack.contains(head) || self.spent.contains(head)
                &&& self.nodes[head as int].next == Some(next)
                &&& self.has(next)
            },
            Operation::Pop(PopFront::Take { head }) => {
                &&& self.spent.contains(head)
                &&& self.nodes[head as int].inner is Some
                &&& !self.retired.contains(head)
            },
            Operation::Pop(PopFront::Unlink { head, next }) => {
                &&& self.follows(next, head)
                &&& self.position(head) <= self.pivot()
            },
            Operation::Pop(PopFront::LoadTail { head, next }) => {
                &&& self.follows(next, head)
                &&& self.position(next) <= self.pivot()
                &&& self.nodes[next as int].inner is Some
                &&& self.position(head) <= self.rear()
                &&& !self.retired.contains(head)
            },
            Operation::Pop(PopFront::Help { head, next }) => {
                &&& self.follows(next, head)
                &&& self.position(next) <= self.pivot()
                &&& self.nodes[next as int].inner is Some
                &&& self.position(head) <= self.rear()
                &&& !self.retired.contains(head)
            },
            Operation::Pop(PopFront::Consume { head, next }) => {
                &&& self.follows(next, head)
                &&& self.position(next) <= self.pivot()
                &&& self.nodes[next as int].inner is Some
                &&& self.position(head) < self.rear()
                &&& !self.retired.contains(head)
            },
            Operation::Pop(PopFront::Retire { head }) => {
                &&& self.left(head)
                &&& !self.retired.contains(head)
            },
            Operation::Pop(PopFront::Count) => true,
            Operation::Pop(PopFront::Done) => true,
        }
    }
}

impl<T> World<T> {
    /// Whether some thread's operation has the claim `claim` on `handle`.
    pub open spec fn claimed(self, claim: Claim, handle: Handle) -> bool {
        exists|t: int|
            0 <= t < self.threads.len() && (#[trigger] self.threads[t]).claims(claim) == Some(
                handle,
            )
    }

    /// Every operation fits the shared state.
    pub open spec fn fitting(self) -> bool {
        forall|t: int| 0 <= t < self.threads.len() ==> self.memory.fits(#[trigger] self.threads[t])
    }

    /// No two threads have the same claim on the same node.
    pub open spec fn exclusive(self) -> bool {
        forall|t: int, u: int|
            0 <= t < self.threads.len() && 0 <= u < self.threads.len() && t != u ==> (
            #[trigger] self.threads[t]).apart(#[trigger] self.threads[u])
    }

    /// Whatever is unfinished about a node is some operation's claim: a
    /// filled slot at or in front of the anchor, or of a spent node, is won;
    /// a node that is not linked is loose; a node that has left the list and
    /// is not retired is unlinked; and a last node that `tail` does not
    /// refer to is unswung.
    pub open spec fn covered(self) -> bool {
        let m = self.memory;
        &&& forall|i: int|
            0 <= i <= m.pivot() && i < m.order.len() && (#[trigger] m.at(i)).inner is Some
                ==> self.claimed(Claim::Won, m.order[i])
        &&& forall|j: int|
            0 <= j < m.spent.len() && m.nodes[(#[trigger] m.spent[j]) as int].inner is Some
                ==> self.claimed(Claim::Won, m.spent[j])
        &&& forall|h: Handle| #[trigger] m.pending(h) ==> self.claimed(Claim::Loose, h)
        &&& forall|i: int|
            0 <= i < m.pivot() && i < m.order.len() && !m.retired.contains(#[trigger] m.order[i])
                ==> self.claimed(Claim::Unlinked, m.order[i])
        &&& forall|j: int|
            0 <= j < m.spent.len() && !m.retired.contains(#[trigger] m.spent[j])
                ==> self.claimed(Claim::Unlinked, m.spent[j])
        &&& m.rear() < m.order.len() - 1 ==> self.claimed(Claim::Unswung, m.order.last())
    }

    /// The counters add up: every node is appended, stacked, spent or some
    /// insertion's loose node; the length counter is the number of values
    /// in the list less what the operations in flight still owe it,
    /// wrapped; and each node that has left the list is retired or about to
    /// be, and has handed out its value or is about to.
    pub open spec fn counted(self) -> bool {
        let m = self.memory;
        &&& self.threads.len() <= usize::MAX
        &&& m.order.len() + m.stack.len() + m.spent.len() + loose_nodes(self.threads)
            == m.nodes.len()
        &&& m.len == wrapped(m.stack.len() + m.order.len() - 1 - m.pivot() - debt(self.threads))
        &&& m.retired.len() + tally(self.threads, Claim::Unlinked) == m.pivot() + m.spent.len()
        &&& self.handed.len() + tally(self.threads, Claim::Won) == m.pivot() + m.spent.len()
    }

    /// What holds at every moment while operations are at work, however
    /// their accesses interleave.
    pub open spec fn coherent(self) -> bool {
        &&& self.memory.threaded()
        &&& self.fitting()
        &&& self.exclusive()
        &&& self.covered()
        &&& self.counted()
    }
}

/// Replacing one operation changes the debt by the difference.
pub proof fn lemma_debt_update(threads: Seq<Operation>, t: int, operation: Operation)
    requires
        0 <= t < threads.len(),
    ensures
        debt(threads.update(t, operation)) == debt(threads) - threads[t].owes() + operation.owes(),
    decreases threads.len(),
{
    let after = threads.update(t, operation);
    if t == threads.len() - 1 {
        assert(after.drop_last() =~= threads.drop_last());
    } else {
        lemma_debt_update(threads.drop_last(), t, operation);
        assert(after.drop_last() =~= threads.drop_last().update(t, operation));
    }
}

/// Replacing one operation changes the number of loose nodes by the
/// difference.
pub proof fn lemma_loose_update(threads: Seq<Operation>, t: int, operation: Operation)
    requires
        0 <= t < threads.len(),
    ensures
        loose_nodes(threads.update(t, operation)) == loose_nodes(threads)
            - threads[t].holds_loose() + operation.holds_loose(),
    decreases threads.len(),
{
    let after = threads.update(t, operation);
    if t == threads.len() - 1 {
        assert(after.drop_last() =~= threads.drop_last());
    } else {
        lemma_loose_update(threads.drop_last(), t, operation);
        assert(after.drop_last() =~= threads.drop_last().update(t, operation));
    }
}

/// Replacing one operation changes the tally by the difference.
pub proof fn lemma_tally_update(threads: Seq<Operation>, t: int, operation: Operation, claim: Claim)
    requires
        0 <= t < threads.len(),
    ensures
        tally(threads.update(t, operation), claim) == tally(threads, claim) - (if threads[t].claims(
            claim,
        ) is Some {
            1int
        } else {
            0
        }) + (if operation.claims(claim) is Some {
            1int
        } else {
            0
        }),
    decreases threads.len(),
{
    let after = threads.update(t, operation);
    if t == threads.len() - 1 {
        assert(after.drop_last() =~= threads.drop_last());
    } else {
        lemma_tally_update(threads.drop_last(), t, operation, claim);
        assert(after.drop_last() =~= threads.drop_last().update(t, operation));
    }
}

/// The debt is at most one for each thread, either way, and the loose nodes
/// are at most one for each thread.
pub proof fn lemma_sums_bounded(threads: Seq<Operation>)
    ensures
        -threads.len() <= debt(threads) <= threads.len(),
        0 <= loose_nodes(threads) <= threads.len(),
    decreases threads.len(),
{
    if threads.len() > 0 {
        lemma_sums_bounded(threads.drop_last());
    }
}

/// Idle threads owe nothing and hold nothing.
pub proof fn lemma_sums_at_rest(threads: Seq<Operation>)
    requires
        forall|t: int| 0 <= t < threads.len() ==> (#[trigger] threads[t]).done(),
    ensures
        debt(threads) == 0,
        loose_nodes(threads) == 0,
        forall|claim: Claim| #[trigger] tally(threads, claim) == 0,
    decreases threads.len(),
{
    if threads.len() > 0 {
        assert(threads.last().done());
        assert forall|t: int| 0 <= t < threads.drop_last().len() implies (
        #[trigger] threads.drop_last()[t]).done() by {
            assert(threads[t].done());
        }
        lemma_sums_at_rest(threads.drop_last());
        assert forall|claim: Claim| #[trigger] tally(threads, claim) == 0 by {
            assert(tally(threads.drop_last(), claim) == 0);
            assert(threads.last().claims(claim) is None);
        }
    } else {
        assert forall|claim: Claim| #[trigger] tally(threads, claim) == 0 by {}
    }
}

} // verus!
