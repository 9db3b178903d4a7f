use linklist::list1::{frame, List};
use linklist::text::join;

fn filled() -> List<i32> {
    let mut list = List::new();
    list.push(0);
    list.push(1);
    list.push(2);
    list
}

#[test]
fn basic() {
    let mut list = List::new();
    list.push(0);
    list.push(1);
    list.push(2);
    assert_eq!(list.pop(), Some(2));
    list.push(3);

    assert_eq!(list.pop(), Some(3));
    assert_eq!(list.pop(), Some(1));
    assert_eq!(list.pop(), Some(0));
    assert_eq!(list.pop(), None);
}

#[test]
fn format() {
    let mut list = List::new();
    list.push(0);
    list.push(1);
    list.push(2);

    assert_eq!(&list.to_string(), "List[2, 1, 0]");
}

#[test]
fn iter() {
    let mut list = List::new();
    list.push(0);
    list.push(1);
    list.push(2);

    let mut seen = Vec::new();
    let mut it = list.iter();
    while let Some(v) = it.next() {
        seen.push(v);
    }
    assert_eq!(vec![&2, &1, &0], seen);
}

#[test]
fn iter_mut() {
    let mut list = List::new();
    list.push(0);
    list.push(1);
    list.push(2);

    let mut it = list.iter_mut();
    while let Some(v) = it.next() {
        *v *= 2;
    }

    let mut seen = Vec::new();
    let mut it = list.iter();
    while let Some(v) = it.next() {
        seen.push(v);
    }
    assert_eq!(vec![&4, &2, &0], seen)
}

#[test]
fn into_iter() {
    let mut list = List::new();
    list.push(0);
    list.push(1);
    list.push(2);

    let mut seen = Vec::new();
    let mut it = list.into_iter();
    while let Some(v) = it.next() {
        seen.push(v);
    }
    assert_eq!(vec![2, 1, 0], seen)
}

#[test]
fn head_shows_the_last_push_and_leaves_it() {
    let mut list = List::new();
    assert_eq!(list.head(), None);
    list.push(7);
    list.push(9);
    assert_eq!(list.head(), Some(&9));
    assert_eq!(list.head(), Some(&9));
    assert_eq!(list.pop(), Some(9));
    assert_eq!(list.head(), Some(&7));
}

#[test]
fn pop_on_empty_list_changes_nothing() {
    let mut list: List<i32> = List::new();
    assert_eq!(list.pop(), None);
    assert_eq!(list.pop(), None);
    list.push(5);
    assert_eq!(list.pop(), Some(5));
    assert_eq!(list.pop(), None);
}

#[test]
fn default_list_is_empty() {
    let mut list: List<i32> = List::default();
    assert_eq!(list.head(), None);
    assert_eq!(list.pop(), None);
    assert_eq!(list.to_string(), "List[]");
}

#[test]
fn vec_from_list_keeps_the_order_of_a_walk() {
    let v: Vec<i32> = Vec::from(filled());
    assert_eq!(v, vec![2, 1, 0]);
    let empty: Vec<i32> = Vec::from(List::new());
    assert_eq!(empty, Vec::<i32>::new());
}

#[test]
fn iter_leaves_the_list_alone() {
    let mut list = filled();
    {
        let mut it = list.iter();
        assert_eq!(it.next(), Some(&2));
        assert_eq!(it.next(), Some(&1));
        assert_eq!(it.next(), Some(&0));
        assert_eq!(it.next(), None);
        assert_eq!(it.next(), None);
    }
    assert_eq!(list.pop(), Some(2));
}

#[test]
fn iter_mut_writes_only_what_it_is_told() {
    let mut list = filled();
    {
        let mut it = list.iter_mut();
        let first = it.next().unwrap();
        *first = 20;
        let _second = it.next().unwrap();
        let third = it.next().unwrap();
        *third += 5;
        assert!(it.next().is_none());
    }
    assert_eq!(Vec::from(list), vec![20, 1, 5]);
}

#[test]
fn into_iter_ends_with_none() {
    let mut it = filled().into_iter();
    assert_eq!(it.next(), Some(2));
    assert_eq!(it.next(), Some(1));
    assert_eq!(it.next(), Some(0));
    assert_eq!(it.next(), None);
    assert_eq!(it.next(), None);
}

#[test]
fn text_of_one_value_has_no_comma() {
    let mut list = List::new();
    list.push(String::from("a b"));
    assert_eq!(list.to_string(), "List[a b]");
}

#[test]
fn frame_puts_the_parts_between_brackets() {
    assert_eq!(frame(&Vec::new()), "List[]");
    assert_eq!(frame(&vec![String::from("x")]), "List[x]");
    assert_eq!(frame(&vec![String::from("x"), String::new(), String::from("z")]), "List[x, , z]");
}

#[test]
fn join_writes_the_separator_between_neighbours_only() {
    assert_eq!(join(&Vec::new(), ", "), "");
    assert_eq!(join(&vec![String::from("a")], ", "), "a");
    assert_eq!(join(&vec![String::from("a"), String::from("b")], ", "), "a, b");
    assert_eq!(join(&vec![String::from("a"), String::from("b"), String::from("c")], ""), "abc");
    assert_eq!(join(&vec![String::new(), String::new()], "-"), "-");
}

#[test]
fn a_long_list_is_dropped_without_deep_calls() {
    let mut list = List::new();
    for i in 0..200_000 {
        list.push(i);
    }
    assert_eq!(list.head(), Some(&199_999));
}
