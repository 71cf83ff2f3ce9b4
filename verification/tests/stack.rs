use data_structures::linked_list::LinkedList;
use data_structures::stack::Stack;

#[test]
fn test_new_stack() {
    let sut = Stack::new();
    assert!(sut.is_empty());
}

#[test]
fn test_push() {
    let mut sut = Stack::new();
    sut.push(1);
    assert!(!sut.is_empty());
}

#[test]
fn test_push_1_2_3() {
    let mut sut = Stack::new();
    sut.push(1);
    sut.push(2);
    sut.push(3);
    assert!(!sut.is_empty());
    assert_eq!(sut.size(), 3);
}

#[test]
fn test_pop() {
    let mut sut = Stack::new();
    assert_eq!(sut.pop(), None);
    sut.push(1);
    assert_eq!(sut.pop(), Some(1));
    sut.push(2);
    sut.push(3);
    sut.push(4);
    sut.push(5);
    assert_eq!(sut.pop(), Some(5));
    assert_eq!(sut.size(), 3);
}

#[test]
fn stack_test_contains() {
    let mut sut = Stack::new();
    assert_eq!(sut.contains(42), false);
    sut.push(42);
    assert_eq!(sut.contains(42), true);
    sut.push(43);
    sut.push(44);
    sut.push(45);
    sut.push(46);
    assert_eq!(sut.contains(43), true);
    assert_eq!(sut.contains(44), true);
    assert_eq!(sut.contains(45), true);
    assert_eq!(sut.contains(46), true);
    assert_eq!(sut.contains(47), false);
}

#[test]
fn stack_test_iter_count() {
    let mut sut = Stack::new();
    sut.push(1);
    sut.push(2);
    sut.push(3);
    sut.push(4);
    assert_eq!(sut.iter().count(), 4);
}

#[test]
fn stack_test_iter_loop() {
    let mut sut = Stack::new();
    sut.push(1);
    sut.push(2);
    sut.push(3);
    sut.push(4);
    let mut iter_sut = sut.iter();
    assert_eq!(iter_sut.next(), Some(4));
    assert_eq!(iter_sut.next(), Some(3));
    assert_eq!(iter_sut.next(), Some(2));
    assert_eq!(iter_sut.next(), Some(1));
}

#[test]
fn stack_test_into_iter() {
    let mut sut = Stack::new();
    sut.push(1);
    sut.push(2);
    sut.push(3);
    sut.push(4);
    let mut iter_sut = sut.into_iter();
    assert_eq!(iter_sut.next(), Some(4));
    assert_eq!(iter_sut.next(), Some(3));
    assert_eq!(iter_sut.next(), Some(2));
    assert_eq!(iter_sut.next(), Some(1));
}

#[test]
fn test_size() {
    let mut sut = Stack::new();
    sut.push(1);
    sut.push(2);
    sut.push(3);
    sut.push(4);
    assert_eq!(sut.size(), 4);
    sut.pop();
    assert_eq!(sut.size(), 3);
}

#[test]
fn test_default() {
    let sut: Stack = Default::default();
    assert!(sut.is_empty());
    assert_eq!(sut.size(), 0);
}

#[test]
fn test_from() {
    let mut list = LinkedList::new();
    list.append(12);
    list.append(13);
    list.append(14);
    let mut sut = Stack::from(list);

    assert!(sut.contains(12));
    assert!(sut.contains(13));
    assert!(sut.contains(14));
    assert_eq!(sut.pop(), Some(14));
}

#[test]
fn pop_follows_last_in_first_out() {
    let mut sut = Stack::new();
    sut.push(10);
    sut.push(20);
    assert_eq!(sut.pop(), Some(20));
    sut.push(30);
    assert_eq!(sut.pop(), Some(30));
    assert_eq!(sut.pop(), Some(10));
    assert_eq!(sut.pop(), None);
}
