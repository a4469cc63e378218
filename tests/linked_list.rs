use advanced_structures::linked_list::LinkedList;

fn items(l: &LinkedList<i32>) -> Vec<i32> {
    let mut out = Vec::new();
    let mut it = l.iter();
    while let Some(x) = it.next() {
        out.push(*x);
    }
    out
}

#[test]
fn push_and_pop_both_ends() {
    let mut l = LinkedList::new();
    assert!(l.is_empty());
    l.push_back(2);
    l.push_back(3);
    l.push_front(1);
    assert_eq!(items(&l), vec![1, 2, 3]);
    assert_eq!(l.len(), 3);
    assert_eq!(l.pop_back(), Some(3));
    assert_eq!(l.pop_front(), Some(1));
    assert_eq!(l.pop_front(), Some(2));
    assert_eq!(l.pop_front(), None);
    assert_eq!(l.pop_back(), None);
}

#[test]
fn positional_insert_and_pop() {
    let mut l = LinkedList::new();
    l.insert(10, 0);
    l.insert(30, 1);
    l.insert(20, 1);
    l.insert(5, 0);
    assert_eq!(items(&l), vec![5, 10, 20, 30]);
    assert_eq!(l.pop(2), Some(20));
    assert_eq!(items(&l), vec![5, 10, 30]);
    assert_eq!(l.get(1), Some(&10));
    assert_eq!(l.get(3), None);
    *l.get_mut(0) = 7;
    assert_eq!(items(&l), vec![7, 10, 30]);
}

#[test]
fn clear_and_into_iter() {
    let mut l = LinkedList::new();
    l.push_back(1);
    l.push_back(2);
    let c = l.clone();
    l.clear();
    assert_eq!(l.len(), 0);
    let mut it = c.into_iter();
    assert_eq!(it.next(), Some(1));
    assert_eq!(it.next(), Some(2));
    assert_eq!(it.next(), None);
}
