use lockfree_list::{Action, Event, LinkedList, Node};

fn three() -> LinkedList<u8> {
    let mut list = LinkedList::new();
    list.push_back(1);
    list.push_back(2);
    list
}

#[test]
fn node_new_is_filled_and_unlinked() {
    let node = Node::new(9u8);
    assert_eq!(node.inner, Some(9));
    assert_eq!(node.next, None);
    assert_eq!(node.prev, None);
    assert!(!node.front);
    let front = Node::new_front(5u8);
    assert_eq!(front.inner, Some(5));
    assert_eq!(front.next, None);
    assert!(front.front);
    let sentinel: Node<u8> = Node::sentinel();
    assert_eq!(sentinel.inner, None);
    assert_eq!(sentinel.next, None);
    assert_eq!(sentinel.prev, None);
}

#[test]
fn link_boxed_hands_out_the_next_index() {
    let mut list = three();
    assert_eq!(list.link_boxed(Node::new(7)), 3);
    assert_eq!(list.link_boxed(Node::new(8)), 4);
    assert_eq!(list.node(4).unwrap().inner, Some(8));
    assert_eq!(list.node(4).unwrap().next, None);
    assert_eq!(list.tail(), 2);
    assert_eq!(list.len(), 2);
}

#[test]
fn protected_loads_read_the_links() {
    let mut list = three();
    assert_eq!(list.perform(Action::ProtectHead), (Event::Loaded(Some(0)), None));
    assert_eq!(list.perform(Action::ProtectTail), (Event::Loaded(Some(2)), None));
    assert_eq!(list.perform(Action::ProtectNext { node: 0 }), (Event::Loaded(Some(1)), None));
    assert_eq!(list.perform(Action::ProtectNext { node: 2 }), (Event::Loaded(None), None));
    assert_eq!(list.perform(Action::ProtectNext { node: 3 }), (Event::Loaded(None), None));
    assert_eq!(
        list.perform(Action::Inspect { node: 0 }),
        (Event::Found { front: false, next: Some(1) }, None)
    );
    assert_eq!(
        list.perform(Action::Inspect { node: 99 }),
        (Event::Found { front: false, next: None }, None)
    );
    list.push_front(9);
    assert_eq!(
        list.perform(Action::Inspect { node: 3 }),
        (Event::Found { front: true, next: Some(0) }, None)
    );
}

#[test]
fn swaps_on_head_for_the_front() {
    let mut list = three();
    let new = list.link_boxed(Node::new_front(9));
    assert_eq!(list.perform(Action::Stack { onto: 1, new }), (Event::Exchanged(false), None));
    assert_eq!(list.head(), 0);
    assert_eq!(list.perform(Action::Stack { onto: 0, new: 8 }), (Event::Exchanged(false), None));
    assert_eq!(list.perform(Action::Stack { onto: 0, new }), (Event::Exchanged(true), None));
    assert_eq!(list.head(), 3);
    assert_eq!(
        list.perform(Action::Unstack { from: 0, to: 1 }),
        (Event::Exchanged(false), None)
    );
    assert_eq!(list.head(), 3);
    assert_eq!(
        list.perform(Action::Unstack { from: 3, to: 0 }),
        (Event::Exchanged(true), None)
    );
    assert_eq!(list.head(), 0);
}

#[test]
fn swap_on_head_needs_the_expected_value() {
    let mut list = three();
    assert_eq!(
        list.perform(Action::AdvanceHead { from: 1, to: 2 }),
        (Event::Exchanged(false), None)
    );
    assert_eq!(list.head(), 0);
    assert_eq!(
        list.perform(Action::AdvanceHead { from: 0, to: 1 }),
        (Event::Exchanged(true), None)
    );
    assert_eq!(list.head(), 1);
    assert_eq!(
        list.perform(Action::AdvanceHead { from: 1, to: 3 }),
        (Event::Exchanged(false), None)
    );
    assert_eq!(list.head(), 1);
}

#[test]
fn swap_on_tail_needs_the_expected_value() {
    let mut list = three();
    assert_eq!(
        list.perform(Action::AdvanceTail { from: 0, to: 1 }),
        (Event::Exchanged(false), None)
    );
    assert_eq!(list.tail(), 2);
    assert_eq!(
        list.perform(Action::AdvanceTail { from: 2, to: 1 }),
        (Event::Exchanged(true), None)
    );
    assert_eq!(list.tail(), 1);
    assert_eq!(
        list.perform(Action::AdvanceTail { from: 1, to: 7 }),
        (Event::Exchanged(false), None)
    );
    assert_eq!(list.tail(), 1);
}

#[test]
fn links_are_installed_only_where_absent() {
    let mut list = three();
    let new = list.link_boxed(Node::new(3));
    assert_eq!(
        list.perform(Action::LinkNext { node: 1, new }),
        (Event::Exchanged(false), None)
    );
    assert_eq!(list.node(1).unwrap().next, Some(2));
    assert_eq!(
        list.perform(Action::LinkNext { node: 2, new }),
        (Event::Exchanged(true), None)
    );
    assert_eq!(list.node(2).unwrap().next, Some(3));
    assert_eq!(
        list.perform(Action::LinkPrev { node: 2, new }),
        (Event::Exchanged(false), None)
    );
    assert_eq!(list.node(2).unwrap().prev, Some(1));
    assert_eq!(
        list.perform(Action::LinkPrev { node: 0, new }),
        (Event::Exchanged(true), None)
    );
    assert_eq!(list.node(0).unwrap().prev, Some(3));
    assert_eq!(
        list.perform(Action::LinkNext { node: 9, new }),
        (Event::Exchanged(false), None)
    );
    assert_eq!(
        list.perform(Action::LinkPrev { node: 3, new: 9 }),
        (Event::Exchanged(false), None)
    );
    assert_eq!(list.node(3).unwrap().prev, None);
}

#[test]
fn store_overwrites_next() {
    let mut list = three();
    assert_eq!(list.perform(Action::StoreNext { node: 2, to: 0 }), (Event::Performed, None));
    assert_eq!(list.node(2).unwrap().next, Some(0));
    assert_eq!(list.perform(Action::StoreNext { node: 5, to: 0 }), (Event::Performed, None));
    assert_eq!(list.perform(Action::StoreNext { node: 1, to: 5 }), (Event::Performed, None));
    assert_eq!(list.node(1).unwrap().next, Some(2));
}

#[test]
fn payload_moves_out_once() {
    let mut list = three();
    assert_eq!(list.perform(Action::Consume { node: 2 }), (Event::Performed, Some(2)));
    assert_eq!(list.perform(Action::Consume { node: 2 }), (Event::Performed, None));
    assert_eq!(list.perform(Action::Consume { node: 0 }), (Event::Performed, None));
    assert_eq!(list.perform(Action::Consume { node: 3 }), (Event::Performed, None));
    assert_eq!(list.node(1).unwrap().inner, Some(1));
}

#[test]
fn retirement_is_recorded_in_order() {
    let mut list = three();
    assert_eq!(list.perform(Action::Retire { node: 1 }), (Event::Performed, None));
    assert_eq!(list.perform(Action::Retire { node: 0 }), (Event::Performed, None));
    assert_eq!(list.perform(Action::Retire { node: 3 }), (Event::Performed, None));
    assert_eq!(list.retired(), &vec![1, 0]);
}

#[test]
fn counter_updates_wrap() {
    let mut list: LinkedList<u8> = LinkedList::new();
    assert_eq!(list.perform(Action::Decrement), (Event::Performed, None));
    assert_eq!(list.len(), usize::MAX);
    assert_eq!(list.perform(Action::Increment), (Event::Performed, None));
    assert_eq!(list.len(), 0);
    assert_eq!(list.perform(Action::Increment), (Event::Performed, None));
    assert_eq!(list.len(), 1);
}
