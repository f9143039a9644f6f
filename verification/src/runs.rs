use vstd::prelude::*;
use vstd::wrapping::usize_specs::{wrapping_add, wrapping_sub};
use crate::machine::{Operation, Outcome, PopFront, PushBack, PushFront};
use crate::memory::Memory;
use crate::node::{Handle, Node};

verus! {

impl<T> Memory<T> {
    /// The state of a new list: the sentinel alone, anchor and back at once.
    pub open spec fn fresh() -> Self {
        Memory {
            nodes: seq![Node::placeholder()],
            head: 0,
            tail: 0,
            len: 0,
            retired: Seq::empty(),
            order: seq![0usize],
            anchor: 0,
            stack: Seq::empty(),
            spent: Seq::empty(),
        }
    }

    /// The same state with `tail` referring to another node.
    pub open spec fn retarget(self, tail: Handle) -> Self {
        Memory { tail, ..self }
    }

    /// The accesses that appending makes when it runs alone: three for each
    /// node that `tail` lags behind the last one, then six.
    pub open spec fn back_fuel(self) -> nat {
        (3 * (self.order.len() - 1 - self.rear()) + 6) as nat
    }

    /// The state of a new list is well formed and holds nothing.
    pub proof fn lemma_fresh()
        ensures
            Self::fresh().wf(),
            Self::fresh().elements() == Seq::<T>::empty(),
    {
        let m = Self::fresh();
        assert(m.order[0] == 0);
        m.lemma_position(0);
        assert(m.elements() =~= Seq::<T>::empty());
    }

    /// In a state at rest the length counter is the number of values held.
    pub proof fn lemma_counted(self)
        requires
            self.wf(),
        ensures
            self.len == self.elements().len(),
    {
    }

    /// Moving `tail` to a node of `order` at or behind the anchor keeps the
    /// state well formed.
    #[verifier::rlimit(80)]
    #[verifier::spinoff_prover]
    pub proof fn lemma_retarget(self, tail: Handle)
        requires
            self.wf(),
            self.order.contains(tail),
            self.pivot() <= self.position(tail),
        ensures
            self.retarget(tail).wf(),
            self.retarget(tail).elements() == self.elements(),
    {
        let moved = self.retarget(tail);
        assert forall|i: int| 0 <= i < moved.order.len() implies (#[trigger] moved.at(i)).next
            == moved.after(i) && (moved.at(i).inner is Some <==> moved.pivot() < i) by {
            assert(self.at(i).next == self.after(i));
        }
        assert forall|j: int| 0 <= j < moved.stack.len() implies moved.has(
            #[trigger] moved.stack[j],
        ) && moved.up(j).front && moved.up(j).inner is Some && moved.up(j).next == Some(
            moved.below(j),
        ) by {
            assert(self.has(self.stack[j]));
        }
        assert forall|j: int| 0 <= j < moved.retired.len() implies moved.gone(
            #[trigger] moved.retired[j],
        ) by {
            assert(self.gone(self.retired[j]));
        }
        assert(moved.elements() =~= self.elements());
    }

    /// Appending keeps the state well formed and adds the value at the back.
    #[verifier::rlimit(80)]
    #[verifier::spinoff_prover]
    pub proof fn lemma_pushed_back(self, value: T)
        requires
            self.wf(),
            self.nodes.len() < usize::MAX,
        ensures
            self.pushed_back(value).wf(),
            self.pushed_back(value).elements() == self.elements().push(value),
            self.pushed_back(value).rear() == self.order.len(),
    {
        let after = self.pushed_back(value);
        let new = self.nodes.len() as Handle;
        let count = self.order.len() as int;
        let a = self.pivot();
        self.lemma_position_of(self.anchor);
        self.lemma_position_of(self.tail);
        let last = self.order[count - 1];
        assert(self.has(last));
        assert forall|i: int| 0 <= i < count implies after.order[i] == self.order[i] && self.has(
            self.order[i],
        ) && after.at(i).inner == self.at(i).inner && after.at(i).front == self.at(i).front && (i
            < count - 1 ==> after.at(i).next == self.at(i).next) by {
            assert(self.has(self.order[i]));
        }
        assert(after.order.no_duplicates());
        assert(after.order[a] == after.anchor);
        after.lemma_position(a);
        assert(after.order[count] == after.tail);
        after.lemma_position(count);
        assert forall|i: int| 0 <= i < after.order.len() implies (#[trigger] after.at(i)).next
            == after.after(i) && (after.at(i).inner is Some <==> after.pivot() < i) by {
            if i < count {
                assert(self.at(i).next == self.after(i));
            }
        }
        assert forall|j: int| 0 <= j < after.stack.len() implies after.has(
            #[trigger] after.stack[j],
        ) && after.up(j) == self.up(j) && after.below(j) == self.below(j) by {
            assert(self.has(self.stack[j]));
            self.lemma_sorts(self.stack[j]);
            self.lemma_sorts(last);
        }
        assert forall|j: int| 0 <= j < after.spent.len() implies after.has(
            #[trigger] after.spent[j],
        ) && after.nodes[after.spent[j] as int] == self.nodes[self.spent[j] as int] by {
            assert(self.has(self.spent[j]));
            self.lemma_sorts(self.spent[j]);
            self.lemma_sorts(last);
        }
        assert(after.stacked());
        assert forall|h: Handle| #[trigger] self.order.contains(h) implies after.order.contains(
            h,
        ) by {
            self.lemma_position_of(h);
            assert(after.order[self.position(h)] == h);
        }
        assert forall|h: Handle| #[trigger] self.order.contains(h) implies after.position(h)
            == self.position(h) by {
            self.lemma_position_of(h);
            assert(after.order[self.position(h)] == h);
            after.lemma_position(self.position(h));
        }
        assert forall|j: int| 0 <= j < after.retired.len() implies after.gone(
            #[trigger] after.retired[j],
        ) by {
            assert(self.gone(self.retired[j]));
        }
        assert forall|i: int| 0 <= i < after.pivot() implies after.retired.contains(
            #[trigger] after.order[i],
        ) by {
            assert(self.retired.contains(self.order[i]));
        }
        assert(after.reclaimed());
        assert forall|h: Handle| after.has(h) implies (#[trigger] after.order.contains(h))
            || after.stack.contains(h) || after.spent.contains(h) by {
            if h < new {
                assert(self.order.contains(h) || self.stack.contains(h) || self.spent.contains(h));
            } else {
                assert(after.order[count] == h);
            }
        }
        assert(after.elements() =~= self.elements().push(value)) by {
            assert forall|p: int| a < p < self.order.len() implies (#[trigger] after.at(p)).inner
                == self.at(p).inner by {}
            assert forall|j: int| 0 <= j < self.stack.len() implies after.up(j).inner == self.up(
                j,
            ).inner by {}
        }
    }

    /// Putting in front keeps the state well formed and adds the value at
    /// the front.
    #[verifier::rlimit(80)]
    #[verifier::spinoff_prover]
    pub proof fn lemma_pushed_front(self, value: T)
        requires
            self.wf(),
            self.nodes.len() < usize::MAX,
        ensures
            self.pushed_front(value).wf(),
            self.pushed_front(value).elements() == seq![value] + self.elements(),
    {
        let after = self.pushed_front(value);
        let new = self.nodes.len() as Handle;
        let onto = self.head;
        let a = self.pivot();
        self.lemma_position_of(self.anchor);
        self.lemma_position_of(self.tail);
        self.lemma_sorts(onto);
        assert(self.has(onto)) by {
            if self.stack.len() > 0 {
                assert(self.has(self.stack[0]));
            }
        }
        assert forall|h: Handle| self.has(h) implies after.nodes[h as int].inner
            == self.nodes[h as int].inner && after.nodes[h as int].next == self.nodes[h as int].next
            && after.nodes[h as int].front == self.nodes[h as int].front by {}
        assert forall|i: int| 0 <= i < after.order.len() implies (#[trigger] after.at(i)).next
            == after.after(i) && (after.at(i).inner is Some <==> after.pivot() < i) && after.has(
            after.order[i],
        ) by {
            assert(self.at(i).next == self.after(i));
            assert(self.has(self.order[i]));
        }
        assert(after.stack[0] == new);
        assert forall|j: int| 1 <= j < after.stack.len() implies after.stack[j] == self.stack[j
            - 1] && self.has(self.stack[j - 1]) by {
            assert(self.has(self.stack[j - 1]));
        }
        assert(after.stack.no_duplicates());
        assert forall|j: int| 0 <= j < after.stack.len() implies after.has(
            #[trigger] after.stack[j],
        ) && after.up(j).front && after.up(j).inner is Some && after.up(j).next == Some(
            after.below(j),
        ) by {
            if j > 0 {
                assert(self.up(j - 1).next == Some(self.below(j - 1)));
            }
        }
        assert forall|j: int| 0 <= j < after.spent.len() implies after.has(
            #[trigger] after.spent[j],
        ) && after.nodes[after.spent[j] as int].front
            && after.nodes[after.spent[j] as int].inner is None && !after.stack.contains(
            after.spent[j],
        ) by {
            assert(self.has(self.spent[j]));
            if after.stack.contains(self.spent[j]) {
                let i = choose|i: int| 0 <= i < after.stack.len() && after.stack[i] == self.spent[j];
                assert(self.stack[i - 1] == self.spent[j]);
            }
        }
        assert forall|j: int| 0 <= j < after.retired.len() implies after.gone(
            #[trigger] after.retired[j],
        ) by {
            assert(self.gone(self.retired[j]));
        }
        assert forall|h: Handle| after.has(h) implies (#[trigger] after.order.contains(h))
            || after.stack.contains(h) || after.spent.contains(h) by {
            if h < new {
                assert(self.order.contains(h) || self.stack.contains(h) || self.spent.contains(h));
                if self.stack.contains(h) {
                    let i = choose|i: int| 0 <= i < self.stack.len() && self.stack[i] == h;
                    assert(after.stack[i + 1] == h);
                }
            } else {
                assert(after.stack[0] == h);
            }
        }
        assert(after.elements() =~= seq![value] + self.elements()) by {
            assert forall|j: int| 1 <= j < after.stack.len() implies after.up(j).inner == self.up(
                j - 1,
            ).inner by {}
            assert forall|p: int| a < p < self.order.len() implies (#[trigger] after.at(p)).inner
                == self.at(p).inner by {
                assert(self.has(self.order[p]));
            }
        }
    }

    /// Removing keeps the state well formed and takes the frontmost value
    /// off.
    #[verifier::rlimit(80)]
    #[verifier::spinoff_prover]
    pub proof fn lemma_popped(self)
        requires
            self.wf(),
            self.elements().len() > 0,
        ensures
            self.popped().wf(),
            self.popped().elements() == self.elements().drop_first(),
    {
        let after = self.popped();
        let a = self.pivot();
        let gone = self.head;
        self.lemma_position_of(self.anchor);
        self.lemma_position_of(self.tail);
        self.lemma_sorts(gone);
        assert forall|i: int| 0 <= i < self.order.len() implies self.has(self.order[i]) by {}
        if self.stack.len() > 0 {
            assert(self.has(self.stack[0]));
            assert(self.up(0).next == Some(self.below(0)));
            assert forall|i: int| 0 <= i < after.order.len() implies (#[trigger] after.at(i)).next
                == after.after(i) && (after.at(i).inner is Some <==> after.pivot() < i) by {
                assert(self.at(i).next == self.after(i));
                self.lemma_sorts(self.order[i]);
            }
            assert forall|j: int| 0 <= j < after.stack.len() implies after.stack[j] == self.stack[j
                + 1] && after.stack[j] != gone && self.has(self.stack[j + 1]) by {
                assert(self.has(self.stack[j + 1]));
            }
            assert forall|j: int| 0 <= j < after.stack.len() implies after.has(
                #[trigger] after.stack[j],
            ) && after.up(j).front && after.up(j).inner is Some && after.up(j).next == Some(
                after.below(j),
            ) by {
                assert(self.up(j + 1).next == Some(self.below(j + 1)));
            }
            assert(after.stack.no_duplicates());
            let spent = self.spent.len() as int;
            assert(after.spent[spent] == gone);
            assert forall|j: int| 0 <= j < spent implies after.spent[j] == self.spent[j]
                && self.spent[j] != gone && self.has(self.spent[j]) by {
                assert(self.has(self.spent[j]));
            }
            assert(after.spent.no_duplicates());
            assert forall|j: int| 0 <= j < after.spent.len() implies after.has(
                #[trigger] after.spent[j],
            ) && after.nodes[after.spent[j] as int].front
                && after.nodes[after.spent[j] as int].inner is None && !after.stack.contains(
                after.spent[j],
            ) by {
                if after.stack.contains(after.spent[j]) {
                    let i = choose|i: int|
                        0 <= i < after.stack.len() && after.stack[i] == after.spent[j];
                    assert(self.stack[i + 1] == after.spent[j]);
                }
            }
            let count = self.retired.len() as int;
            assert(after.retired[count] == gone);
            assert(!self.retired.contains(gone)) by {
                if self.retired.contains(gone) {
                    let j = choose|j: int| 0 <= j < self.retired.len() && self.retired[j] == gone;
                    assert(self.gone(self.retired[j]));
                    if self.order.contains(gone) {
                        self.lemma_sorts(gone);
                    }
                }
            }
            assert forall|j: int| 0 <= j < count implies after.retired[j] == self.retired[j] by {}
            assert(after.retired.no_duplicates());
            assert forall|j: int| 0 <= j < after.retired.len() implies after.gone(
                #[trigger] after.retired[j],
            ) by {
                if j < count {
                    assert(self.gone(self.retired[j]));
                    if self.spent.contains(self.retired[j]) {
                        let i = choose|i: int|
                            0 <= i < self.spent.len() && self.spent[i] == self.retired[j];
                        assert(after.spent[i] == self.retired[j]);
                    }
                }
            }
            assert forall|i: int| 0 <= i < after.pivot() implies after.retired.contains(
                #[trigger] after.order[i],
            ) by {
                assert(self.retired.contains(self.order[i]));
                let j = choose|j: int| 0 <= j < self.retired.len() && self.retired[j] == self.order[i];
                assert(after.retired[j] == self.order[i]);
            }
            assert forall|j: int| 0 <= j < after.spent.len() implies after.retired.contains(
                #[trigger] after.spent[j],
            ) by {
                if j < spent {
                    assert(self.retired.contains(self.spent[j]));
                    let i = choose|i: int|
                        0 <= i < self.retired.len() && self.retired[i] == self.spent[j];
                    assert(after.retired[i] == self.spent[j]);
                }
            }
            assert forall|h: Handle| after.has(h) implies (#[trigger] after.order.contains(h))
                || after.stack.contains(h) || after.spent.contains(h) by {
                assert(self.order.contains(h) || self.stack.contains(h) || self.spent.contains(h));
                if self.stack.contains(h) && h != gone {
                    let i = choose|i: int| 0 <= i < self.stack.len() && self.stack[i] == h;
                    assert(after.stack[i - 1] == h);
                }
                if self.spent.contains(h) {
                    let i = choose|i: int| 0 <= i < self.spent.len() && self.spent[i] == h;
                    assert(after.spent[i] == h);
                }
            }
            assert(after.elements() =~= self.elements().drop_first()) by {
                assert forall|p: int| a < p < self.order.len() implies (
                #[trigger] after.at(p)).inner == self.at(p).inner by {
                    self.lemma_sorts(self.order[p]);
                }
                assert forall|j: int| 0 <= j < after.stack.len() implies after.up(j).inner
                    == self.up(j + 1).inner by {}
            }
        } else {
            assert(self.elements().len() == self.behind());
            let next = self.order[a + 1];
            assert(self.has(next));
            assert(after.order[a + 1] == after.anchor);
            after.lemma_position(a + 1);
            assert(after.order[self.rear()] == self.tail);
            after.lemma_position(self.rear());
            assert forall|i: int| 0 <= i < after.order.len() implies (#[trigger] after.at(i)).next
                == after.after(i) && (after.at(i).inner is Some <==> after.pivot() < i) by {
                assert(self.at(i).next == self.after(i));
                if i != a + 1 {
                    assert(self.order[i] != next);
                }
            }
            assert forall|j: int| 0 <= j < after.spent.len() implies after.has(
                #[trigger] after.spent[j],
            ) && after.nodes[after.spent[j] as int].front
                && after.nodes[after.spent[j] as int].inner is None && !after.stack.contains(
                after.spent[j],
            ) by {
                assert(self.has(self.spent[j]));
            }
            let count = self.retired.len() as int;
            assert(after.retired[count] == gone);
            assert(gone == self.order[a]);
            assert(!self.retired.contains(gone)) by {
                if self.retired.contains(gone) {
                    let j = choose|j: int| 0 <= j < self.retired.len() && self.retired[j] == gone;
                    assert(self.gone(self.retired[j]));
                    if self.spent.contains(gone) {
                        self.lemma_sorts(gone);
                    }
                }
            }
            assert forall|j: int| 0 <= j < count implies after.retired[j] == self.retired[j] by {}
            assert(after.retired.no_duplicates());
            assert forall|j: int| 0 <= j < after.retired.len() implies after.gone(
                #[trigger] after.retired[j],
            ) by {
                if j < count {
                    assert(self.gone(self.retired[j]));
                }
            }
            assert forall|i: int| 0 <= i < after.pivot() implies after.retired.contains(
                #[trigger] after.order[i],
            ) by {
                if i < a {
                    assert(self.retired.contains(self.order[i]));
                    let j = choose|j: int|
                        0 <= j < self.retired.len() && self.retired[j] == self.order[i];
                    assert(after.retired[j] == self.order[i]);
                }
            }
            assert forall|j: int| 0 <= j < after.spent.len() implies after.retired.contains(
                #[trigger] after.spent[j],
            ) by {
                assert(self.retired.contains(self.spent[j]));
                let i = choose|i: int| 0 <= i < self.retired.len() && self.retired[i] == self.spent[j];
                assert(after.retired[i] == self.spent[j]);
            }
            assert(after.elements() =~= self.elements().drop_first()) by {
                assert forall|p: int| a + 1 < p < self.order.len() implies (
                #[trigger] after.at(p)).inner == self.at(p).inner by {
                    assert(self.order[p] != next);
                }
            }
        }
    }

    /// An operation that is done within some number of accesses is done
    /// within any greater number, and arrives at the same state.
    pub proof fn lemma_more_fuel(self, operation: Operation, fuel: nat, more: nat, taken: Option<T>)
        requires
            self.halts(operation, fuel),
            fuel <= more,
        ensures
            self.halts(operation, more),
            self.run(operation, more, taken) == self.run(operation, fuel, taken),
        decreases fuel,
    {
        if operation.spec_action() is Some {
            self.step(operation).lemma_more_fuel(
                self.resume(operation),
                (fuel - 1) as nat,
                (more - 1) as nat,
                if self.yields(operation) is Some {
                    self.yields(operation)
                } else {
                    taken
                },
            );
        }
    }

    /// Removal of a node that was put in front, run alone.
    proof fn lemma_pop_stacked(self, to: Handle)
        requires
            self.has(self.head),
            self.has(to),
            self.nodes[self.head as int].front,
            self.nodes[self.head as int].next == Some(to),
        ensures
            self.halts(Operation::Pop(PopFront::LoadHead), 6),
            self.run(Operation::Pop(PopFront::LoadHead), 6, None) == (Outcome {
                memory: Memory {
                    head: to,
                    len: wrapping_sub(self.len, 1),
                    stack: self.stack.drop_first(),
                    spent: self.spent.push(self.head),
                    retired: self.retired.push(self.head),
                    ..self.with_empty_slot(self.head)
                },
                taken: self.nodes[self.head as int].inner,
            }),
    {
        reveal_with_fuel(Memory::halts, 7);
        reveal_with_fuel(Memory::run, 7);
    }

    /// Removal where `head` refers to an anchor without successor, run alone.
    proof fn lemma_pop_nothing(self)
        requires
            self.has(self.head),
            !self.nodes[self.head as int].front,
            self.nodes[self.head as int].next is None,
        ensures
            self.halts(Operation::Pop(PopFront::LoadHead), 2),
            self.run(Operation::Pop(PopFront::LoadHead), 2, None) == (Outcome {
                memory: self,
                taken: None,
            }),
    {
        reveal_with_fuel(Memory::halts, 3);
        reveal_with_fuel(Memory::run, 3);
    }

    /// Removal of the node behind the anchor, run alone.
    proof fn lemma_pop_appended(self, next: Handle)
        requires
            self.has(self.head),
            self.has(next),
            next != self.head,
            !self.nodes[self.head as int].front,
            self.nodes[self.head as int].next == Some(next),
        ensures
            self.halts(Operation::Pop(PopFront::LoadHead), 9),
            self.run(Operation::Pop(PopFront::LoadHead), 9, None) == (Outcome {
                memory: Memory {
                    head: next,
                    anchor: next,
                    tail: if self.tail == self.head {
                        next
                    } else {
                        self.tail
                    },
                    len: wrapping_sub(self.len, 1),
                    retired: self.retired.push(self.head),
                    ..self.with_empty_slot(next)
                },
                taken: self.nodes[next as int].inner,
            }),
    {
        reveal_with_fuel(Memory::halts, 10);
        reveal_with_fuel(Memory::run, 10);
    }

    /// Removal from the front, run alone from a state at rest, is done within
    /// nine accesses. Where the list holds a value it arrives at the state
    /// without the frontmost one, with that value in hand; otherwise it
    /// changes nothing and has nothing in hand.
    #[verifier::rlimit(80)]
    #[verifier::spinoff_prover]
    pub proof fn lemma_pop_front_runs(self)
        requires
            self.wf(),
        ensures
            self.halts(Operation::Pop(PopFront::LoadHead), 9),
            self.run(Operation::Pop(PopFront::LoadHead), 9, None) == (if self.elements().len() > 0 {
                Outcome { memory: self.popped(), taken: Some(self.elements()[0]) }
            } else {
                Outcome { memory: self, taken: None }
            }),
    {
        let start = Operation::Pop(PopFront::LoadHead);
        self.lemma_position_of(self.anchor);
        self.lemma_sorts(self.head);
        let a = self.pivot();
        assert(self.at(a).next == self.after(a));
        assert(self.has(self.order[a]));
        if self.stack.len() > 0 {
            assert(self.has(self.stack[0]));
            assert(self.up(0).next == Some(self.below(0)));
            assert(self.has(self.below(0))) by {
                if self.stack.len() > 1 {
                    assert(self.has(self.stack[1]));
                }
            }
            self.lemma_pop_stacked(self.below(0));
            self.lemma_more_fuel(start, 6, 9, None);
        } else if self.behind() > 0 {
            let next = self.order[a + 1];
            assert(self.has(next));
            assert(self.at(a + 1).inner is Some);
            self.lemma_pop_appended(next);
        } else {
            self.lemma_pop_nothing();
            self.lemma_more_fuel(start, 2, 9, None);
        }
    }

    /// An append that finds `tail` lagging helps it on and starts over.
    proof fn lemma_append_helps(self, new: Handle, next: Handle, fuel: nat)
        requires
            self.has(self.tail),
            self.has(next),
            self.nodes[self.tail as int].next == Some(next),
        ensures
            self.halts(Operation::Back(PushBack::LoadTail { new }), fuel + 3) == self.retarget(
                next,
            ).halts(Operation::Back(PushBack::LoadTail { new }), fuel),
            self.run(Operation::Back(PushBack::LoadTail { new }), fuel + 3, None) == self.retarget(
                next,
            ).run(Operation::Back(PushBack::LoadTail { new }), fuel, None),
    {
        reveal_with_fuel(Memory::halts, 4);
        reveal_with_fuel(Memory::run, 4);
    }

    /// An append that finds `tail` at the last node links its node there.
    proof fn lemma_append_links(self, new: Handle)
        requires
            self.has(self.tail),
            self.has(new),
            new != self.tail,
            self.nodes[self.tail as int].next is None,
            self.nodes[new as int].prev is None,
        ensures
            self.halts(Operation::Back(PushBack::LoadTail { new }), 6),
            self.run(Operation::Back(PushBack::LoadTail { new }), 6, None) == (Outcome {
                memory: Memory {
                    tail: new,
                    len: wrapping_add(self.len, 1),
                    order: self.order.push(new),
                    ..self.with_next(self.tail, Some(new)).with_prev(new, Some(self.tail))
                },
                taken: None,
            }),
    {
        reveal_with_fuel(Memory::halts, 7);
        reveal_with_fuel(Memory::run, 7);
    }

    /// Appending, run alone from a state at rest in which the new node has
    /// been allocated, arrives at the appended state.
    #[verifier::rlimit(80)]
    #[verifier::spinoff_prover]
    pub proof fn lemma_push_back_runs(self, value: T)
        requires
            self.wf(),
            self.nodes.len() < usize::MAX,
        ensures
            ({
                let start = Operation::Back(PushBack::LoadTail { new: self.nodes.len() as Handle });
                let begun = self.allocate(Node::holding(value));
                &&& begun.halts(start, self.back_fuel())
                &&& begun.run(start, self.back_fuel(), None) == Outcome {
                    memory: self.pushed_back(value),
                    taken: None,
                }
            }),
        decreases self.order.len() - self.rear(),
    {
        let new = self.nodes.len() as Handle;
        let begun = self.allocate(Node::holding(value));
        let q = self.rear();
        self.lemma_position_of(self.tail);
        self.lemma_position_of(self.anchor);
        assert(self.at(q).next == self.after(q));
        assert(self.has(self.order[q]));
        if q + 1 < self.order.len() {
            let next = self.order[q + 1];
            assert(self.has(next));
            let helped = self.retarget(next);
            self.lemma_position(q + 1);
            self.lemma_retarget(next);
            helped.lemma_position(q + 1);
            helped.lemma_push_back_runs(value);
            assert(helped.pushed_back(value) == self.pushed_back(value));
            assert(helped.allocate(Node::holding(value)) == begun.retarget(next));
            begun.lemma_append_helps(new, next, helped.back_fuel());
        } else {
            begun.lemma_append_links(new);
            let end = begun.run(Operation::Back(PushBack::LoadTail { new }), 6, None);
            assert(end.memory.nodes =~= self.pushed_back(value).nodes);
        }
    }

    /// Putting in front, run alone from a state at rest in which the new
    /// node has been allocated, arrives within five accesses at the state
    /// with the node in front.
    #[verifier::rlimit(80)]
    #[verifier::spinoff_prover]
    pub proof fn lemma_push_front_runs(self, value: T)
        requires
            self.wf(),
            self.nodes.len() < usize::MAX,
        ensures
            ({
                let start = Operation::Front(
                    PushFront::LoadHead { new: self.nodes.len() as Handle },
                );
                let begun = self.allocate(Node::heading(value));
                &&& begun.halts(start, 5)
                &&& begun.run(start, 5, None) == Outcome {
                    memory: self.pushed_front(value),
                    taken: None,
                }
            }),
    {
        let start = Operation::Front(PushFront::LoadHead { new: self.nodes.len() as Handle });
        let begun = self.allocate(Node::heading(value));
        self.lemma_position_of(self.anchor);
        assert(self.has(self.head)) by {
            if self.stack.len() > 0 {
                assert(self.has(self.stack[0]));
            }
        }
        reveal_with_fuel(Memory::halts, 6);
        reveal_with_fuel(Memory::run, 6);
        let end = begun.run(start, 5, None);
        assert(end.memory.nodes =~= self.pushed_front(value).nodes);
    }
}

} // verus!
