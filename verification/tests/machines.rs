use lockfree_list::{Action, Event, LinkedList, Node, Operation, PopFront, PushBack, PushFront};

#[test]
fn push_back_follows_its_table() {
    let start = PushBack::start(4);
    assert_eq!(start, PushBack::LoadTail { new: 4 });
    assert_eq!(start.action(), Some(Action::ProtectTail));
    let loaded = start.advance(Event::Loaded(Some(2)));
    assert_eq!(loaded, PushBack::LoadNext { new: 4, onto: 2 });
    assert_eq!(loaded.action(), Some(Action::ProtectNext { node: 2 }));
    let stale = loaded.advance(Event::Loaded(Some(3)));
    assert_eq!(stale, PushBack::Help { new: 4, onto: 2, next: 3 });
    assert_eq!(stale.action(), Some(Action::AdvanceTail { from: 2, to: 3 }));
    assert_eq!(stale.advance(Event::Exchanged(false)), start);
    assert_eq!(stale.advance(Event::Exchanged(true)), start);
    let link = loaded.advance(Event::Loaded(None));
    assert_eq!(link, PushBack::Link { new: 4, onto: 2 });
    assert_eq!(link.action(), Some(Action::LinkNext { node: 2, new: 4 }));
    assert_eq!(link.advance(Event::Exchanged(false)), start);
    let linked = link.advance(Event::Exchanged(true));
    assert_eq!(linked, PushBack::SetPrev { new: 4, onto: 2 });
    assert_eq!(linked.action(), Some(Action::LinkPrev { node: 4, new: 2 }));
    assert_eq!(linked.advance(Event::Exchanged(false)), PushBack::Swing { new: 4, onto: 2 });
    let swing = linked.advance(Event::Exchanged(true));
    assert_eq!(swing, PushBack::Swing { new: 4, onto: 2 });
    assert_eq!(swing.action(), Some(Action::AdvanceTail { from: 2, to: 4 }));
    assert_eq!(swing.advance(Event::Exchanged(false)), PushBack::Count);
    assert_eq!(swing.advance(Event::Exchanged(true)), PushBack::Count);
    assert_eq!(PushBack::Count.action(), Some(Action::Increment));
    assert_eq!(PushBack::Count.advance(Event::Performed), PushBack::Done);
    assert_eq!(PushBack::Done.action(), None);
    assert_eq!(PushBack::Done.advance(Event::Performed), PushBack::Done);
}

#[test]
fn push_front_follows_its_table() {
    let start = PushFront::start(4);
    assert_eq!(start, PushFront::LoadHead { new: 4 });
    assert_eq!(start.action(), Some(Action::ProtectHead));
    let loaded = start.advance(Event::Loaded(Some(2)));
    assert_eq!(loaded, PushFront::SetNext { new: 4, onto: 2 });
    assert_eq!(loaded.action(), Some(Action::StoreNext { node: 4, to: 2 }));
    let link = loaded.advance(Event::Performed);
    assert_eq!(link, PushFront::Link { new: 4, onto: 2 });
    assert_eq!(link.action(), Some(Action::Stack { onto: 2, new: 4 }));
    assert_eq!(link.advance(Event::Exchanged(false)), start);
    let linked = link.advance(Event::Exchanged(true));
    assert_eq!(linked, PushFront::SetPrev { new: 4, onto: 2 });
    assert_eq!(linked.action(), Some(Action::LinkPrev { node: 2, new: 4 }));
    assert_eq!(linked.advance(Event::Exchanged(false)), PushFront::Count);
    assert_eq!(linked.advance(Event::Exchanged(true)), PushFront::Count);
    assert_eq!(PushFront::Count.action(), Some(Action::Increment));
    assert_eq!(PushFront::Count.advance(Event::Performed), PushFront::Done);
    assert_eq!(PushFront::Done.action(), None);
}

#[test]
fn pop_front_follows_its_table() {
    let start = PopFront::start();
    assert_eq!(start, PopFront::LoadHead);
    assert_eq!(start.action(), Some(Action::ProtectHead));
    let loaded = start.advance(Event::Loaded(Some(5)));
    assert_eq!(loaded, PopFront::Inspect { head: 5 });
    assert_eq!(loaded.action(), Some(Action::Inspect { node: 5 }));
    assert_eq!(loaded.advance(Event::Found { front: false, next: None }), PopFront::Done);
    assert_eq!(loaded.advance(Event::Found { front: true, next: None }), PopFront::LoadHead);
    let unstack = loaded.advance(Event::Found { front: true, next: Some(6) });
    assert_eq!(unstack, PopFront::Unstack { head: 5, next: 6 });
    assert_eq!(unstack.action(), Some(Action::Unstack { from: 5, to: 6 }));
    assert_eq!(unstack.advance(Event::Exchanged(false)), PopFront::LoadHead);
    let take = unstack.advance(Event::Exchanged(true));
    assert_eq!(take, PopFront::Take { head: 5 });
    assert_eq!(take.action(), Some(Action::Consume { node: 5 }));
    assert_eq!(take.advance(Event::Performed), PopFront::Retire { head: 5 });
    let unlink = loaded.advance(Event::Found { front: false, next: Some(6) });
    assert_eq!(unlink, PopFront::Unlink { head: 5, next: 6 });
    assert_eq!(unlink.action(), Some(Action::AdvanceHead { from: 5, to: 6 }));
    assert_eq!(unlink.advance(Event::Exchanged(false)), PopFront::LoadHead);
    let unlinked = unlink.advance(Event::Exchanged(true));
    assert_eq!(unlinked, PopFront::LoadTail { head: 5, next: 6 });
    assert_eq!(unlinked.action(), Some(Action::ProtectTail));
    let lagging = unlinked.advance(Event::Loaded(Some(5)));
    assert_eq!(lagging, PopFront::Help { head: 5, next: 6 });
    assert_eq!(lagging.action(), Some(Action::AdvanceTail { from: 5, to: 6 }));
    let consume = PopFront::Consume { head: 5, next: 6 };
    assert_eq!(lagging.advance(Event::Exchanged(true)), consume);
    assert_eq!(lagging.advance(Event::Exchanged(false)), consume);
    assert_eq!(unlinked.advance(Event::Loaded(Some(9))), consume);
    assert_eq!(consume.action(), Some(Action::Consume { node: 6 }));
    let retire = consume.advance(Event::Performed);
    assert_eq!(retire, PopFront::Retire { head: 5 });
    assert_eq!(retire.action(), Some(Action::Retire { node: 5 }));
    assert_eq!(retire.advance(Event::Performed), PopFront::Count);
    assert_eq!(PopFront::Count.action(), Some(Action::Decrement));
    assert_eq!(PopFront::Count.advance(Event::Performed), PopFront::Done);
    assert_eq!(PopFront::Done.action(), None);
}

#[test]
fn an_event_of_the_wrong_kind_changes_nothing() {
    let back = PushBack::LoadTail { new: 1 };
    assert_eq!(back.advance(Event::Performed), back);
    assert_eq!(back.advance(Event::Exchanged(true)), back);
    assert_eq!(back.advance(Event::Loaded(None)), back);
    let link = PushBack::Link { new: 1, onto: 0 };
    assert_eq!(link.advance(Event::Loaded(None)), link);
    let set = PushBack::SetPrev { new: 1, onto: 0 };
    assert_eq!(set.advance(Event::Performed), set);
    let front = PushFront::SetNext { new: 1, onto: 0 };
    assert_eq!(front.advance(Event::Exchanged(true)), front);
    let inspect = PopFront::Inspect { head: 0 };
    assert_eq!(inspect.advance(Event::Loaded(None)), inspect);
    let pop = PopFront::Unlink { head: 0, next: 1 };
    assert_eq!(pop.advance(Event::Performed), pop);
    assert_eq!(PopFront::LoadHead.advance(Event::Loaded(None)), PopFront::LoadHead);
}

#[test]
fn operation_wraps_the_three_machines() {
    let back = Operation::Back(PushBack::start(1));
    assert_eq!(back.action(), Some(Action::ProtectTail));
    assert_eq!(
        back.advance(Event::Loaded(Some(0))),
        Operation::Back(PushBack::LoadNext { new: 1, onto: 0 })
    );
    let front = Operation::Front(PushFront::start(1));
    assert_eq!(front.action(), Some(Action::ProtectHead));
    let pop = Operation::Pop(PopFront::start());
    assert_eq!(pop.advance(Event::Loaded(Some(0))), Operation::Pop(PopFront::Inspect { head: 0 }));
    assert_eq!(Operation::Pop(PopFront::Done).action(), None);
}

fn finish(list: &mut LinkedList<u32>, mut operation: Operation) -> Option<u32> {
    let mut taken = None;
    while operation.action().is_some() {
        let (next, payload) = list.step(operation);
        if payload.is_some() {
            taken = payload;
        }
        operation = next;
    }
    taken
}

#[test]
fn front_insertion_step_by_step() {
    let mut list: LinkedList<u32> = LinkedList::new();
    list.push_back(1);
    assert_eq!(list.pop_front(), Some(1));
    assert_eq!(list.head(), 1);
    let new = list.link_boxed(Node::new_front(2));
    let mut operation = Operation::Front(PushFront::start(new));
    let mut seen = vec![operation];
    while operation.action().is_some() {
        operation = list.step(operation).0;
        seen.push(operation);
    }
    assert_eq!(
        seen,
        vec![
            Operation::Front(PushFront::LoadHead { new: 2 }),
            Operation::Front(PushFront::SetNext { new: 2, onto: 1 }),
            Operation::Front(PushFront::Link { new: 2, onto: 1 }),
            Operation::Front(PushFront::SetPrev { new: 2, onto: 1 }),
            Operation::Front(PushFront::Count),
            Operation::Front(PushFront::Done),
        ]
    );
    assert_eq!(list.head(), 2);
    assert_eq!(list.node(2).unwrap().next, Some(1));
    // The retired sentinel stays the `prev` of the anchor: it was set first.
    assert_eq!(list.node(1).unwrap().prev, Some(0));
    assert_eq!(list.len(), 1);
    assert_eq!(list.pop_front(), Some(2));
    assert_eq!(list.pop_front(), None);
}

#[test]
fn a_failed_front_insertion_changes_nothing_held() {
    let mut list: LinkedList<u32> = LinkedList::new();
    list.push_back(1);
    let first = list.link_boxed(Node::new_front(2));
    let second = list.link_boxed(Node::new_front(3));
    let mut a = Operation::Front(PushFront::start(first));
    let mut b = Operation::Front(PushFront::start(second));
    for _ in 0..2 {
        a = list.step(a).0;
        b = list.step(b).0;
    }
    assert_eq!(a, Operation::Front(PushFront::Link { new: first, onto: 0 }));
    assert_eq!(b, Operation::Front(PushFront::Link { new: second, onto: 0 }));
    b = list.step(b).0;
    assert_eq!(list.head(), second);
    a = list.step(a).0;
    assert_eq!(a, Operation::Front(PushFront::LoadHead { new: first }));
    assert_eq!(list.head(), second);
    assert_eq!(list.node(second).unwrap().next, Some(0));
    assert_eq!(finish(&mut list, a), None);
    assert_eq!(finish(&mut list, b), None);
    assert_eq!(list.len(), 3);
    assert_eq!(list.pop_front(), Some(2));
    assert_eq!(list.pop_front(), Some(3));
    assert_eq!(list.pop_front(), Some(1));
    assert_eq!(list.pop_front(), None);
}

#[test]
fn removal_and_front_insertion_race_for_head() {
    let mut list: LinkedList<u32> = LinkedList::new();
    list.push_back(1);
    let new = list.link_boxed(Node::new_front(2));
    let mut push = Operation::Front(PushFront::start(new));
    let mut pop = Operation::Pop(PopFront::start());
    for _ in 0..2 {
        push = list.step(push).0;
        pop = list.step(pop).0;
    }
    assert_eq!(pop, Operation::Pop(PopFront::Unlink { head: 0, next: 1 }));
    // The insertion wins `head`; the removal starts over and takes its node.
    push = list.step(push).0;
    pop = list.step(pop).0;
    assert_eq!(pop, Operation::Pop(PopFront::LoadHead));
    assert_eq!(finish(&mut list, pop), Some(2));
    assert_eq!(finish(&mut list, push), None);
    assert_eq!(list.len(), 1);
    assert_eq!(list.pop_front(), Some(1));
    assert_eq!(list.pop_front(), None);
    assert_eq!(list.retired(), &vec![2, 0]);
}

#[test]
fn a_finished_operation_steps_to_itself() {
    let mut list: LinkedList<u32> = LinkedList::new();
    let done = Operation::Back(PushBack::Done);
    assert_eq!(list.step(done), (done, None));
    assert_eq!(list.len(), 0);
}

#[test]
fn stalled_append_is_helped_by_the_next_one() {
    let mut list: LinkedList<u32> = LinkedList::new();
    let first = list.link_boxed(Node::new(1));
    let second = list.link_boxed(Node::new(2));
    let mut a = Operation::Back(PushBack::start(first));
    // The first append links its node and publishes `prev`, then stalls
    // before it moves `tail`.
    for _ in 0..4 {
        a = list.step(a).0;
    }
    assert_eq!(a, Operation::Back(PushBack::Swing { new: first, onto: 0 }));
    assert_eq!(list.tail(), 0);
    // The second finds `tail` stale, helps it forward, and links behind.
    assert_eq!(finish(&mut list, Operation::Back(PushBack::start(second))), None);
    assert_eq!(list.tail(), second);
    assert_eq!(list.node(first).unwrap().next, Some(second));
    assert_eq!(list.node(second).unwrap().prev, Some(first));
    // The first one's swing of `tail` now fails, and is ignored.
    assert_eq!(finish(&mut list, a), None);
    assert_eq!(list.tail(), second);
    assert_eq!(list.len(), 2);
    assert_eq!(list.pop_front(), Some(1));
    assert_eq!(list.pop_front(), Some(2));
    assert_eq!(list.pop_front(), None);
}

#[test]
fn two_appends_race_for_the_same_link() {
    let mut list: LinkedList<u32> = LinkedList::new();
    let first = list.link_boxed(Node::new(1));
    let second = list.link_boxed(Node::new(2));
    let mut a = Operation::Back(PushBack::start(first));
    let mut b = Operation::Back(PushBack::start(second));
    // Both load `tail` and see no successor.
    for _ in 0..2 {
        a = list.step(a).0;
        b = list.step(b).0;
    }
    assert_eq!(a, Operation::Back(PushBack::Link { new: first, onto: 0 }));
    assert_eq!(b, Operation::Back(PushBack::Link { new: second, onto: 0 }));
    // The second wins the link; the first loses and starts over.
    b = list.step(b).0;
    a = list.step(a).0;
    assert_eq!(b, Operation::Back(PushBack::SetPrev { new: second, onto: 0 }));
    assert_eq!(a, Operation::Back(PushBack::LoadTail { new: first }));
    assert_eq!(finish(&mut list, a), None);
    assert_eq!(finish(&mut list, b), None);
    assert_eq!(list.len(), 2);
    assert_eq!(list.pop_front(), Some(2));
    assert_eq!(list.pop_front(), Some(1));
    assert_eq!(list.pop_front(), None);
}

#[test]
fn two_removals_race_for_the_same_node() {
    let mut list: LinkedList<u32> = LinkedList::new();
    list.push_back(1);
    list.push_back(2);
    let mut a = Operation::Pop(PopFront::start());
    let mut b = Operation::Pop(PopFront::start());
    for _ in 0..2 {
        a = list.step(a).0;
        b = list.step(b).0;
    }
    assert_eq!(a, Operation::Pop(PopFront::Unlink { head: 0, next: 1 }));
    assert_eq!(b, Operation::Pop(PopFront::Unlink { head: 0, next: 1 }));
    a = list.step(a).0;
    b = list.step(b).0;
    assert_eq!(a, Operation::Pop(PopFront::LoadTail { head: 0, next: 1 }));
    assert_eq!(b, Operation::Pop(PopFront::LoadHead));
    assert_eq!(finish(&mut list, b), Some(2));
    assert_eq!(finish(&mut list, a), Some(1));
    assert_eq!(list.pop_front(), None);
    assert_eq!(list.len(), 0);
    assert_eq!(list.retired(), &vec![1, 0]);
}

#[test]
fn removal_helps_a_lagging_tail() {
    let mut list: LinkedList<u32> = LinkedList::new();
    let new = list.link_boxed(Node::new(1));
    let mut a = Operation::Back(PushBack::start(new));
    for _ in 0..4 {
        a = list.step(a).0;
    }
    assert_eq!(list.tail(), 0);
    let mut p = Operation::Pop(PopFront::start());
    for _ in 0..4 {
        p = list.step(p).0;
    }
    assert_eq!(p, Operation::Pop(PopFront::Help { head: 0, next: new }));
    assert_eq!(finish(&mut list, p), Some(1));
    assert_eq!(list.tail(), new);
    assert_eq!(list.head(), new);
    // The removal was counted before the append.
    assert_eq!(list.len(), usize::MAX);
    assert_eq!(finish(&mut list, a), None);
    assert_eq!(list.len(), 0);
    assert_eq!(list.tail(), new);
}

#[test]
fn interleaved_producers_and_consumers_lose_nothing() {
    let mut list: LinkedList<u32> = LinkedList::new();
    let mut running: Vec<Operation> = Vec::new();
    let mut appended = Vec::new();
    let mut handed_out = Vec::new();
    let mut next_value = 0u32;
    let mut seed = 12345u64;
    for _ in 0..4000 {
        seed = seed.wrapping_mul(6364136223846793005).wrapping_add(1442695040888963407);
        let pick = (seed >> 33) as usize;
        if running.len() < 6 && pick % 7 == 0 {
            if pick % 2 == 0 {
                let new = list.link_boxed(Node::new(next_value));
                appended.push(next_value);
                next_value += 1;
                running.push(Operation::Back(PushBack::start(new)));
            } else {
                running.push(Operation::Pop(PopFront::start()));
            }
        } else if !running.is_empty() {
            let index = pick % running.len();
            let (next, payload) = list.step(running[index]);
            if let Some(value) = payload {
                handed_out.push(value);
            }
            if next.action().is_none() {
                running.remove(index);
            } else {
                running[index] = next;
            }
        }
    }
    for operation in running {
        if let Some(value) = finish(&mut list, operation) {
            handed_out.push(value);
        }
    }
    while let Some(value) = list.pop_front() {
        handed_out.push(value);
    }
    assert_eq!(list.len(), 0);
    handed_out.sort();
    assert_eq!(handed_out, appended);
    let mut retired = list.retired().clone();
    retired.sort();
    retired.dedup();
    assert_eq!(retired.len(), list.retired().len());
    assert!(!retired.contains(&list.head()));
    assert!(!retired.contains(&list.tail()));
}
