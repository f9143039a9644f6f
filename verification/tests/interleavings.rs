use lockfree_list::{Action, LinkedList, Node, Operation, PopFront, PushBack, PushFront};

/// A thread of the test scheduler: the operation at work and the number of
/// nodes that were retired when it began.
struct Thread {
    operation: Operation,
    since: usize,
}

struct Scheduler {
    list: LinkedList<u32>,
    threads: Vec<Thread>,
    seed: u64,
}

impl Scheduler {
    fn new(threads: usize, seed: u64) -> Self {
        Scheduler {
            list: LinkedList::new(),
            threads: (0..threads)
                .map(|_| Thread { operation: Operation::Pop(PopFront::Done), since: 0 })
                .collect(),
            seed,
        }
    }

    fn pick(&mut self, bound: usize) -> usize {
        self.seed = self.seed.wrapping_mul(6364136223846793005).wrapping_add(1442695040888963407);
        ((self.seed >> 33) as usize) % bound
    }

    fn idle(&self, thread: usize) -> bool {
        self.threads[thread].operation.action().is_none()
    }

    fn append(&mut self, thread: usize, value: u32) {
        assert!(self.idle(thread));
        let new = self.list.link_boxed(Node::new(value));
        self.threads[thread] = Thread {
            operation: Operation::Back(PushBack::start(new)),
            since: self.list.retired().len(),
        };
    }

    fn prepend(&mut self, thread: usize, value: u32) {
        assert!(self.idle(thread));
        let new = self.list.link_boxed(Node::new_front(value));
        self.threads[thread] = Thread {
            operation: Operation::Front(PushFront::start(new)),
            since: self.list.retired().len(),
        };
    }

    fn remove(&mut self, thread: usize) {
        assert!(self.idle(thread));
        self.threads[thread] = Thread {
            operation: Operation::Pop(PopFront::start()),
            since: self.list.retired().len(),
        };
    }

    /// One access of `thread`; checks that it touches no node that was
    /// retired before the operation began.
    fn step(&mut self, thread: usize) -> Option<u32> {
        let touched = match self.threads[thread].operation.action() {
            Some(Action::ProtectNext { node }) | Some(Action::Inspect { node }) => Some(node),
            Some(Action::LinkNext { node, .. }) | Some(Action::LinkPrev { node, .. }) => Some(node),
            Some(Action::StoreNext { node, .. }) => Some(node),
            Some(Action::Consume { node }) | Some(Action::Retire { node }) => Some(node),
            _ => None,
        };
        if let Some(node) = touched {
            let since = self.threads[thread].since;
            assert!(!self.list.retired()[..since].contains(&node));
        }
        let (next, payload) = self.list.step(self.threads[thread].operation);
        self.threads[thread].operation = next;
        payload
    }

    /// Lets each thread in turn finish its operation undisturbed, which
    /// takes at most eleven accesses.
    fn settle(&mut self) -> Vec<u32> {
        let mut delivered = Vec::new();
        for thread in 0..self.threads.len() {
            let mut accesses = 0;
            while !self.idle(thread) {
                if let Some(value) = self.step(thread) {
                    delivered.push(value);
                }
                accesses += 1;
            }
            assert!(accesses <= 11);
        }
        delivered
    }
}

#[test]
fn one_producer_one_consumer_deliver_in_order() {
    for seed in 0..20u64 {
        let mut scheduler = Scheduler::new(2, seed);
        let mut called = Vec::new();
        let mut delivered = Vec::new();
        for _ in 0..3000 {
            let thread = scheduler.pick(2);
            if scheduler.idle(thread) {
                if thread == 0 {
                    let value = called.len() as u32 * 3 + 1;
                    called.push(value);
                    scheduler.append(0, value);
                } else {
                    scheduler.remove(1);
                }
            } else if let Some(value) = scheduler.step(thread) {
                delivered.push(value);
            }
            assert_eq!(delivered[..], called[..delivered.len()]);
        }
        delivered.extend(scheduler.settle());
        while let Some(value) = scheduler.list.pop_front() {
            delivered.push(value);
        }
        assert_eq!(delivered, called);
        assert_eq!(scheduler.list.len(), 0);
    }
}

#[test]
fn many_producers_and_consumers_lose_nothing() {
    for seed in 0..20u64 {
        let mut scheduler = Scheduler::new(7, seed + 100);
        let mut appended = Vec::new();
        let mut delivered = Vec::new();
        for _ in 0..4000 {
            let thread = scheduler.pick(7);
            if scheduler.idle(thread) {
                if thread < 2 {
                    let value = appended.len() as u32;
                    appended.push(value);
                    scheduler.append(thread, value);
                } else if thread < 4 {
                    let value = appended.len() as u32;
                    appended.push(value);
                    scheduler.prepend(thread, value);
                } else {
                    scheduler.remove(thread);
                }
            } else if let Some(value) = scheduler.step(thread) {
                delivered.push(value);
            }
        }
        delivered.extend(scheduler.settle());
        let in_flight = appended.len() - delivered.len();
        assert_eq!(scheduler.list.len(), in_flight);
        while let Some(value) = scheduler.list.pop_front() {
            delivered.push(value);
        }
        assert_eq!(scheduler.list.retired().len(), delivered.len());
        delivered.sort();
        assert_eq!(delivered, appended);
        assert_eq!(scheduler.list.len(), 0);
    }
}

#[test]
fn several_producers_keep_their_order() {
    for seed in 0..10u64 {
        let mut scheduler = Scheduler::new(4, seed + 300);
        let mut next = [0u32; 3];
        let mut delivered = Vec::new();
        for _ in 0..4000 {
            let thread = scheduler.pick(4);
            if scheduler.idle(thread) {
                if thread < 3 {
                    scheduler.append(thread, thread as u32 * 100_000 + next[thread]);
                    next[thread] += 1;
                } else {
                    scheduler.remove(thread);
                }
            } else if let Some(value) = scheduler.step(thread) {
                delivered.push(value);
            }
        }
        delivered.extend(scheduler.settle());
        while let Some(value) = scheduler.list.pop_front() {
            delivered.push(value);
        }
        for producer in 0..3u32 {
            let own: Vec<u32> = delivered
                .iter()
                .filter(|value| **value / 100_000 == producer)
                .map(|value| *value % 100_000)
                .collect();
            let expected: Vec<u32> = (0..next[producer as usize]).collect();
            assert_eq!(own, expected);
        }
    }
}

#[test]
fn at_rest_exactly_the_nodes_that_left_are_retired_once() {
    let mut scheduler = Scheduler::new(6, 7);
    let mut count = 0u32;
    for _ in 0..6000 {
        let thread = scheduler.pick(6);
        if scheduler.idle(thread) {
            if thread < 2 {
                scheduler.append(thread, count);
                count += 1;
            } else if thread < 4 {
                scheduler.prepend(thread, count);
                count += 1;
            } else {
                scheduler.remove(thread);
            }
        } else {
            scheduler.step(thread);
        }
        let retired = scheduler.list.retired();
        assert!(!retired.contains(&scheduler.list.head()));
        assert!(!retired.contains(&scheduler.list.tail()));
    }
    scheduler.settle();
    let list = &scheduler.list;
    let mut reach = vec![list.head()];
    while let Some(next) = list.node(*reach.last().unwrap()).unwrap().next {
        reach.push(next);
    }
    let mut retired = list.retired().clone();
    retired.sort();
    let mut unique = retired.clone();
    unique.dedup();
    assert_eq!(unique.len(), retired.len());
    let mut filled = 0;
    for handle in 0..=count as usize {
        let node = list.node(handle).unwrap();
        assert_eq!(retired.contains(&handle), !reach.contains(&handle));
        if node.inner.is_some() {
            assert!(reach.contains(&handle));
            filled += 1;
        }
    }
    assert_eq!(list.len(), filled);
    assert_eq!(reach.len(), filled + 1);
    assert_eq!(list.tail(), *reach.last().unwrap());
}
