use linklist::list2::{DoubleLinkList, Node, NodeRef};
use std::rc::Rc;

fn drain_back(list: &mut DoubleLinkList<i32>) -> Vec<i32> {
    let mut out = Vec::new();
    while let Some(v) = list.pop_back() {
        out.push(v);
    }
    out
}

fn walk(list: &DoubleLinkList<i32>) -> Vec<i32> {
    list.traverse().into_iter().copied().collect()
}

#[test]
fn display() {
    let n = 10;
    let mut list = DoubleLinkList::new();
    for i in 0..n {
        list.push_back(i);
    }
    let s: String = (0..n)
        .rev()
        .map(|x| x.to_string())
        .collect::<Vec<_>>()
        .join(" -> ");
    assert_eq!(list.to_string(), s);
}

#[test]
fn ten_pushes_at_the_back_are_walked_newest_first() {
    let mut list = DoubleLinkList::new();
    for i in 0..10 {
        list.push_back(i);
    }
    assert_eq!(walk(&list), vec![9, 8, 7, 6, 5, 4, 3, 2, 1, 0]);
    assert_eq!(list.to_string(), "9 -> 8 -> 7 -> 6 -> 5 -> 4 -> 3 -> 2 -> 1 -> 0");
    assert_eq!(list.size(), 10);
}

#[test]
fn pops_on_an_empty_list_find_nothing() {
    let mut list: DoubleLinkList<i32> = DoubleLinkList::new();
    assert_eq!(list.pop_front(), None);
    assert_eq!(list.pop_back(), None);
    assert_eq!(list.size(), 0);
    assert_eq!(walk(&list), Vec::<i32>::new());
}

#[test]
fn an_empty_pop_leaves_the_list_usable() {
    let mut list: DoubleLinkList<i32> = DoubleLinkList::new();
    assert_eq!(list.pop_back(), None);
    list.push_back(4);
    assert_eq!(list.pop_front(), Some(4));
    assert_eq!(list.pop_front(), None);
    list.push_front(5);
    list.push_back(6);
    assert_eq!(walk(&list), vec![6, 5]);
    assert_eq!(list.size(), 2);
}

#[test]
fn one_push_at_each_end_then_one_pop_at_each_end() {
    let mut list = DoubleLinkList::new();
    list.push_back(1);
    list.push_front(2);
    assert_eq!(list.pop_back(), Some(1));
    assert_eq!(list.pop_front(), Some(2));
    assert_eq!(list.size(), 0);
    assert_eq!(list.pop_back(), None);
    assert_eq!(list.pop_front(), None);
    assert_eq!(list.to_string(), "");
}

#[test]
fn size_counts_the_nodes_a_walk_meets() {
    let mut list = DoubleLinkList::new();
    assert_eq!(list.size(), 0);
    for i in 0..7 {
        if i % 2 == 0 {
            list.push_back(i);
        } else {
            list.push_front(i);
        }
        assert_eq!(list.size(), list.traverse().len());
    }
    assert_eq!(list.size(), 7);
    assert_eq!(walk(&list), vec![6, 4, 2, 0, 1, 3, 5]);
    while list.pop_front().is_some() {
        assert_eq!(list.size(), list.traverse().len());
    }
    assert_eq!(list.size(), 0);
}

#[test]
fn push_back_then_pop_back_is_a_round_trip() {
    let mut list = DoubleLinkList::new();
    list.push_front(1);
    list.push_front(2);
    let before = walk(&list);
    let size = list.size();
    list.push_back(99);
    assert_eq!(list.pop_back(), Some(99));
    assert_eq!(walk(&list), before);
    assert_eq!(list.size(), size);
}

#[test]
fn push_front_then_pop_front_is_a_round_trip() {
    let mut list = DoubleLinkList::new();
    list.push_back(1);
    list.push_back(2);
    let before = walk(&list);
    list.push_front(99);
    assert_eq!(list.pop_front(), Some(99));
    assert_eq!(walk(&list), before);
    assert_eq!(list.size(), 2);
}

#[test]
fn the_front_hands_out_the_last_push_first() {
    let mut list = DoubleLinkList::new();
    for v in [10, 20, 30, 40] {
        list.push_front(v);
    }
    assert_eq!(walk(&list), vec![10, 20, 30, 40]);
    assert_eq!(list.pop_front(), Some(40));
    assert_eq!(list.pop_front(), Some(30));
    assert_eq!(list.pop_front(), Some(20));
    assert_eq!(list.pop_front(), Some(10));
    assert_eq!(list.pop_front(), None);
}

#[test]
fn the_back_hands_out_the_last_push_first() {
    let mut list = DoubleLinkList::new();
    for v in [10, 20, 30, 40] {
        list.push_back(v);
    }
    assert_eq!(drain_back(&mut list), vec![40, 30, 20, 10]);
    assert_eq!(list.size(), 0);
}

#[test]
fn a_walk_yields_what_pops_at_the_back_would() {
    let mut list = DoubleLinkList::new();
    list.push_back(1);
    list.push_front(2);
    list.push_back(3);
    list.push_front(4);
    let seen = walk(&list);
    assert_eq!(seen, vec![3, 1, 2, 4]);
    assert_eq!(drain_back(&mut list), seen);
}

#[test]
fn the_order_of_work_at_the_two_ends_does_not_show() {
    let mut a = DoubleLinkList::new();
    a.push_back(1);
    a.push_front(2);
    a.push_back(3);
    a.pop_front();
    a.push_front(4);

    let mut b = DoubleLinkList::new();
    b.push_front(4);
    b.push_back(1);
    b.push_back(0);
    b.pop_back();
    b.push_back(3);

    assert_eq!(walk(&a), vec![3, 1, 4]);
    assert_eq!(walk(&a), walk(&b));
    assert_eq!(a.to_string(), b.to_string());
    assert_eq!(a.to_string(), "3 -> 1 -> 4");
}

#[test]
fn released_slots_are_used_again() {
    let mut list = DoubleLinkList::new();
    for round in 0..50 {
        list.push_back(round);
        list.push_front(round + 1);
        assert_eq!(list.pop_back(), Some(round));
        assert_eq!(list.pop_front(), Some(round + 1));
    }
    list.push_front(7);
    list.push_back(8);
    assert_eq!(walk(&list), vec![8, 7]);
    assert_eq!(list.size(), 2);
}

#[test]
fn node_at_counts_from_the_back() {
    let mut list = DoubleLinkList::new();
    assert!(list.node_at(0).is_none());
    list.push_back(1);
    list.push_back(2);
    list.push_front(3);
    let refs: Vec<NodeRef> = (0..3).map(|i| list.node_at(i).unwrap()).collect();
    assert_ne!(refs[0], refs[1]);
    assert_ne!(refs[1], refs[2]);
    assert_ne!(refs[0], refs[2]);
    assert!(list.node_at(3).is_none());
    assert!(list.node_at(usize::MAX).is_none());
    assert_eq!(list.node_at(1), Some(refs[1]));
}

#[test]
fn split_at_detaches_the_named_node_and_keeps_the_counter() {
    let mut list = DoubleLinkList::new();
    for v in [1, 2, 3, 4] {
        list.push_front(v);
    }
    let third = list.node_at(2).unwrap();
    let last = list.node_at(3).unwrap();
    list.split_at(&third);
    assert_eq!(walk(&list), vec![1, 2, 4]);
    assert_eq!(list.size(), 4);
    assert_eq!(list.node_at(2), Some(last));
    assert!(list.node_at(3).is_none());
    assert_eq!(list.to_string(), "1 -> 2 -> 4");
}

#[test]
fn split_at_works_at_both_ends_and_on_the_only_node() {
    let mut list = DoubleLinkList::new();
    for v in [1, 2, 3] {
        list.push_front(v);
    }
    let first = list.node_at(0).unwrap();
    list.split_at(&first);
    assert_eq!(walk(&list), vec![2, 3]);
    let end = list.node_at(1).unwrap();
    list.split_at(&end);
    assert_eq!(walk(&list), vec![2]);
    let only = list.node_at(0).unwrap();
    list.split_at(&only);
    assert_eq!(walk(&list), Vec::<i32>::new());
    assert_eq!(list.size(), 3);
    assert_eq!(list.pop_back(), None);
    assert_eq!(list.pop_front(), None);
    list.push_back(9);
    assert_eq!(walk(&list), vec![9]);
    assert_eq!(list.size(), 4);
}

#[test]
fn pushes_and_pops_go_on_after_a_split() {
    let mut list = DoubleLinkList::new();
    list.push_back(1);
    list.push_back(2);
    let node = list.node_at(1).unwrap();
    list.split_at(&node);
    list.push_front(5);
    list.push_back(6);
    assert_eq!(walk(&list), vec![6, 2, 5]);
    assert_eq!(list.pop_front(), Some(5));
    assert_eq!(list.pop_back(), Some(6));
    assert_eq!(list.pop_back(), Some(2));
    assert_eq!(list.pop_back(), None);
    assert_eq!(list.size(), 1);
}

#[test]
fn default_list_is_empty_too() {
    let mut list: DoubleLinkList<String> = DoubleLinkList::default();
    assert_eq!(list.size(), 0);
    assert_eq!(list.to_string(), "");
    assert_eq!(list.pop_back(), None);
    list.push_back(String::from("x"));
    assert_eq!(list.to_string(), "x");
}

#[test]
fn nodes_can_be_made_on_their_own() {
    let _plain: Node<i32> = Node::new(3);
    let _empty: Node<String> = Node::default();
}

#[test]
fn sentinel_values_never_show() {
    let mut list: DoubleLinkList<i32> = DoubleLinkList::new();
    list.push_back(0);
    assert_eq!(walk(&list), vec![0]);
    assert_eq!(list.pop_front(), Some(0));
    assert_eq!(walk(&list), Vec::<i32>::new());
    assert_eq!(list.pop_front(), None);
}

#[test]
fn dropping_the_list_releases_every_value() {
    let probe = Rc::new(0);
    {
        let mut list: DoubleLinkList<Rc<i32>> = DoubleLinkList::new();
        for _ in 0..100 {
            list.push_back(Rc::clone(&probe));
            list.push_front(Rc::clone(&probe));
        }
        assert_eq!(Rc::strong_count(&probe), 201);
        let out = list.pop_back();
        assert_eq!(Rc::strong_count(&probe), 201);
        drop(out);
        assert_eq!(Rc::strong_count(&probe), 200);
        let node = list.node_at(10).unwrap();
        list.split_at(&node);
        assert_eq!(Rc::strong_count(&probe), 200);
    }
    assert_eq!(Rc::strong_count(&probe), 1);
}

#[test]
fn a_long_list_is_dropped_at_once() {
    let mut list = DoubleLinkList::new();
    for i in 0..200_000 {
        list.push_back(i);
    }
    assert_eq!(list.size(), 200_000);
    assert_eq!(list.pop_front(), Some(0));
}
