use lockfree_list::LinkedList;

#[test]
fn push_back_new() {
    let mut list = LinkedList::new();
    list.push_back(1);
    list.push_back(2);
    list.push_back(3);
    let head = list.head();
    let head_next = list.node(list.head()).unwrap().next.unwrap();

    let head_next_2 = list.node(head_next).unwrap().next.unwrap();
    let head_next_3 = list.node(head_next_2).unwrap().next.unwrap();

    assert_eq!(list.node(head_next).unwrap().prev, Some(head));
    assert_eq!(list.node(head_next_2).unwrap().prev, Some(head_next));
    assert_eq!(list.node(head_next_3).unwrap().prev, Some(head_next_2));

    assert_eq!(list.node(head_next).unwrap().next, Some(head_next_2));
    assert_eq!(list.node(head_next_2).unwrap().next, Some(head_next_3));

    assert_eq!(list.len(), 3);
    assert_eq!(list.pop_front().unwrap(), 1);
    assert_eq!(list.pop_front().unwrap(), 2);
    assert_eq!(list.pop_front().unwrap(), 3);
    assert!(list.pop_front().is_none());
    assert_eq!(list.len(), 0);
}

#[test]
fn push_front() {
    let mut list = LinkedList::new();
    list.push_front(1);
    list.push_front(2);
    list.push_front(3);

    let head = list.head();
    let head_next = list.node(list.head()).unwrap().next.unwrap();

    let head_next_2 = list.node(head_next).unwrap().next.unwrap();
    let head_next_3 = list.node(head_next_2).unwrap().next.unwrap();

    assert_eq!(list.node(head_next).unwrap().prev, Some(head));
    assert_eq!(list.node(head_next_2).unwrap().prev, Some(head_next));
    assert_eq!(list.node(head_next_3).unwrap().prev, Some(head_next_2));

    assert_eq!(list.node(head_next).unwrap().next, Some(head_next_2));
    assert_eq!(list.node(head_next_2).unwrap().next, Some(head_next_3));

    assert_eq!(list.len(), 3);
    assert_eq!(list.pop_front().unwrap(), 3);
    assert_eq!(list.pop_front().unwrap(), 2);
    assert_eq!(list.pop_front().unwrap(), 1);
    assert!(list.pop_front().is_none());
    assert_eq!(list.len(), 0);
}

#[test]
fn new_list_is_empty() {
    let mut list: LinkedList<u32> = LinkedList::new();
    assert_eq!(list.len(), 0);
    assert_eq!(list.head(), 0);
    assert_eq!(list.tail(), 0);
    assert!(list.node(0).unwrap().inner.is_none());
    assert_eq!(list.node(0).unwrap().next, None);
    assert_eq!(list.node(0).unwrap().prev, None);
    assert!(list.node(1).is_none());
    assert_eq!(list.pop_front(), None);
    assert_eq!(list.pop_front(), None);
    assert_eq!(list.len(), 0);
    assert!(list.retired().is_empty());
}

#[test]
fn three_appends_then_drain() {
    let mut list = LinkedList::new();
    list.push_back(1);
    list.push_back(2);
    list.push_back(3);
    assert_eq!(list.len(), 3);
    assert_eq!(list.pop_front(), Some(1));
    assert_eq!(list.pop_front(), Some(2));
    assert_eq!(list.pop_front(), Some(3));
    assert_eq!(list.pop_front(), None);
    assert_eq!(list.len(), 0);
}

#[test]
fn first_in_first_out() {
    let mut list = LinkedList::new();
    for value in 0..200u32 {
        list.push_back(value * 7);
    }
    assert_eq!(list.len(), 200);
    for value in 0..200u32 {
        assert_eq!(list.pop_front(), Some(value * 7));
    }
    assert_eq!(list.pop_front(), None);
    assert_eq!(list.len(), 0);
}

#[test]
fn first_in_first_out_after_earlier_use() {
    let mut list = LinkedList::new();
    list.push_back(String::from("a"));
    assert_eq!(list.pop_front(), Some(String::from("a")));
    list.push_back(String::from("b"));
    list.push_back(String::from("c"));
    assert_eq!(list.pop_front(), Some(String::from("b")));
    list.push_back(String::from("d"));
    assert_eq!(list.pop_front(), Some(String::from("c")));
    assert_eq!(list.pop_front(), Some(String::from("d")));
    assert_eq!(list.pop_front(), None);
}

#[test]
fn front_insertions_stand_in_reverse_order() {
    let mut list = LinkedList::new();
    list.push_front(1);
    list.push_front(2);
    list.push_front(3);
    let mut seen = Vec::new();
    let mut at = Some(list.head());
    while let Some(handle) = at {
        let node = list.node(handle).unwrap();
        seen.push(node.inner);
        at = node.next;
    }
    assert_eq!(seen, vec![Some(3), Some(2), Some(1), None]);
    assert_eq!(list.tail(), 0);
}

#[test]
fn length_follows_appends_and_removals() {
    let mut list = LinkedList::new();
    let mut appended = 0usize;
    let mut handed_out = 0usize;
    for round in 0..50u32 {
        for value in 0..(round % 4) {
            list.push_back(value);
            appended += 1;
        }
        for _ in 0..(round % 3) {
            if list.pop_front().is_some() {
                handed_out += 1;
            }
        }
        assert_eq!(list.len(), appended - handed_out);
    }
    while list.pop_front().is_some() {
        handed_out += 1;
    }
    assert_eq!(appended, handed_out);
    assert_eq!(list.len(), 0);
}

#[test]
fn length_is_zero_exactly_when_drained() {
    let mut list = LinkedList::new();
    assert_eq!(list.len(), 0);
    list.push_back('x');
    assert_eq!(list.len(), 1);
    list.push_back('y');
    assert_eq!(list.len(), 2);
    assert_eq!(list.pop_front(), Some('x'));
    assert_eq!(list.len(), 1);
    assert_eq!(list.pop_front(), Some('y'));
    assert_eq!(list.len(), 0);
    assert_eq!(list.pop_front(), None);
    assert_eq!(list.len(), 0);
}

#[test]
fn nothing_lost_or_duplicated() {
    let mut list = LinkedList::new();
    let mut inserted = Vec::new();
    let mut handed_out = Vec::new();
    for round in 0..40u32 {
        match round % 5 {
            0 | 1 => {
                list.push_back(round);
                inserted.push(round);
            }
            2 => {
                list.push_front(round);
                inserted.push(round);
            }
            _ => {
                if let Some(value) = list.pop_front() {
                    handed_out.push(value);
                }
            }
        }
    }
    let mut held = Vec::new();
    let mut handle = 0;
    while let Some(node) = list.node(handle) {
        if let Some(value) = node.inner {
            held.push(value);
        }
        handle += 1;
    }
    let mut all = handed_out.clone();
    all.extend(held);
    all.sort();
    inserted.sort();
    assert_eq!(all, inserted);
}

#[test]
fn drained_queue_gave_all() {
    let mut list = LinkedList::new();
    let mut appended = Vec::new();
    let mut handed_out = Vec::new();
    for round in 0..60u32 {
        if round % 3 != 2 {
            list.push_back(round);
            appended.push(round);
        } else if let Some(value) = list.pop_front() {
            handed_out.push(value);
        }
    }
    while let Some(value) = list.pop_front() {
        handed_out.push(value);
    }
    assert_eq!(handed_out, appended);
}

#[test]
fn removal_retires_the_old_anchor() {
    let mut list = LinkedList::new();
    list.push_back(1);
    list.push_back(2);
    list.push_back(3);
    assert!(list.retired().is_empty());
    assert_eq!(list.pop_front(), Some(1));
    assert_eq!(list.retired(), &vec![0]);
    assert_eq!(list.head(), 1);
    assert_eq!(list.pop_front(), Some(2));
    assert_eq!(list.retired(), &vec![0, 1]);
    assert_eq!(list.pop_front(), Some(3));
    assert_eq!(list.retired(), &vec![0, 1, 2]);
    assert_eq!(list.head(), 3);
    assert_eq!(list.tail(), 3);
    assert_eq!(list.pop_front(), None);
    assert_eq!(list.retired(), &vec![0, 1, 2]);
}

#[test]
fn last_in_first_out_at_the_front() {
    let mut list = LinkedList::new();
    list.push_front(1);
    list.push_front(2);
    list.push_front(3);
    assert_eq!(list.len(), 3);
    assert_eq!(list.pop_front(), Some(3));
    assert_eq!(list.pop_front(), Some(2));
    assert_eq!(list.pop_front(), Some(1));
    assert_eq!(list.pop_front(), None);
    assert_eq!(list.len(), 0);
}

#[test]
fn one_value_in_front() {
    let mut list = LinkedList::new();
    list.push_front(7);
    assert_eq!(list.len(), 1);
    assert_eq!(list.pop_front(), Some(7));
    assert_eq!(list.len(), 0);
    assert_eq!(list.pop_front(), None);
    assert_eq!(list.len(), 0);
    assert_eq!(list.retired(), &vec![1]);
}

#[test]
fn front_insertion_comes_before_appended_values() {
    let mut list = LinkedList::new();
    list.push_back(1);
    list.push_back(2);
    list.push_front(0);
    assert_eq!(list.len(), 3);
    assert_eq!(list.pop_front(), Some(0));
    assert_eq!(list.pop_front(), Some(1));
    assert_eq!(list.pop_front(), Some(2));
    assert_eq!(list.pop_front(), None);
}

#[test]
fn removal_undoes_front_insertion() {
    let mut list = LinkedList::new();
    list.push_back(1);
    assert_eq!(list.pop_front(), Some(1));
    assert_eq!(list.head(), 1);
    list.push_front(2);
    assert_eq!(list.len(), 1);
    assert_eq!(list.head(), 2);
    assert_eq!(list.node(2).unwrap().next, Some(1));
    assert_eq!(list.pop_front(), Some(2));
    assert_eq!(list.head(), 1);
    assert_eq!(list.pop_front(), None);
    assert_eq!(list.len(), 0);
    // Each node that left the list is retired once, and the anchor is not.
    assert_eq!(list.retired(), &vec![0, 2]);
}

#[test]
fn prev_is_set_once() {
    let mut list = LinkedList::new();
    list.push_front(1);
    assert_eq!(list.node(0).unwrap().prev, Some(1));
    assert_eq!(list.pop_front(), Some(1));
    list.push_front(2);
    assert_eq!(list.node(0).unwrap().prev, Some(1));
    assert_eq!(list.node(2).unwrap().prev, None);
    assert_eq!(list.pop_front(), Some(2));
}

#[test]
fn length_is_the_number_of_values_held() {
    let mut list = LinkedList::new();
    let mut held = std::collections::VecDeque::new();
    for round in 0..200u32 {
        match (round * 7 + round / 3) % 5 {
            0 | 1 => {
                list.push_back(round);
                held.push_back(round);
            }
            2 => {
                list.push_front(round);
                held.push_front(round);
            }
            _ => {
                assert_eq!(list.pop_front(), held.pop_front());
            }
        }
        assert_eq!(list.len(), held.len());
    }
    while let Some(value) = held.pop_front() {
        assert_eq!(list.pop_front(), Some(value));
    }
    assert_eq!(list.pop_front(), None);
    assert_eq!(list.len(), 0);
    let mut retired = list.retired().clone();
    retired.sort();
    retired.dedup();
    assert_eq!(retired.len(), list.retired().len());
}
