use data_structures::linked_list::LinkedList;

#[test]
fn test_new() {
    let sut = LinkedList::new();
    assert_eq!(sut.head, None);
    assert_eq!(sut.is_empty(), true);
}

#[test]
fn test_append() {
    let mut sut = LinkedList::new();
    assert_eq!(&sut.append(1), &true);
    assert_eq!(sut.head.unwrap().value, 1);
}

#[test]
fn test_multiple_append() {
    let mut sut = LinkedList::new();
    sut.append(3453);
    sut.append(342);
    for i in 0..10 {
        sut.append(i);
    }

    for i in 0..10 {
        assert_eq!(sut.contains(i), true);
    }
    assert_eq!(sut.contains(342), true);
    assert_eq!(sut.contains(3453), true);
}

#[test]
fn test_empty_contains() {
    let sut = LinkedList::new();
    assert_eq!(sut.contains(42), false);
}

#[test]
fn linked_list_test_contains() {
    let mut sut = LinkedList::new();
    assert_eq!(sut.contains(42), false);
    sut.append(42);
    assert_eq!(sut.contains(42), true);
}

#[test]
fn test_to_list() {
    let vector = vec![1, 2, 3];
    let sut = LinkedList::from(vector);
    assert_eq!(sut.head.unwrap().value, 1);
    let vector = vec![1, 2, 3];
    let sut = LinkedList::from(vector);
    assert_eq!(sut.head.unwrap().next.unwrap().value, 2);
    let vector = vec![1, 2, 3];
    let sut = LinkedList::from(vector);
    assert_eq!(sut.head.unwrap().next.unwrap().next.unwrap().value, 3);
}

#[test]
fn test_macro() {
    let sut = LinkedList::new();
    assert_eq!(sut.head, None);
    let mut sut = LinkedList::new();
    sut.append(2);
    assert_eq!(sut.head.unwrap().value, 2);
    let mut sut = LinkedList::new();
    sut.append(1);
    sut.append(2);
    sut.append(3);
    assert_eq!(sut.contains(1), true);
    assert_eq!(sut.contains(2), true);
    assert_eq!(sut.contains(3), true);
}

#[test]
fn test_remove_simple() {
    let mut sut = LinkedList::new();
    assert_ne!(true, sut.remove(0));
    sut.append(45);
    assert!(sut.contains(45));
    sut.remove(0);
    assert!(!sut.contains(45))
}

#[test]
fn test_remove_more() {
    let mut sut = LinkedList::new();
    sut.append(45);
    sut.append(56);
    sut.append(234);
    sut.append(4345);
    sut.append(3532);
    sut.append(43234);

    assert_eq!(sut.len, 6);
    sut.remove(5);
    assert!(!sut.contains(43234));
    assert_eq!(sut.len, 5);

    sut.remove(2);
    assert!(!sut.contains(234));
    assert_eq!(sut.len, 4);
}

#[test]
fn test_is_sorted() {
    let mut sut = LinkedList::new();
    sut.append(4);
    sut.append(3);
    sut.append(5);

    assert!(!sut.is_sorted());

    sut.remove(0);

    assert!(sut.is_sorted());
}

#[test]
fn test_remove_head() {
    let mut sut = LinkedList::new();
    sut.append(45);
    sut.append(56);
    sut.append(234);
    sut.append(4345);
    sut.append(3532);
    sut.append(43234);

    assert_eq!(sut.len, 6);
    assert!(sut.contains(45));
    sut.remove(0);
    assert!(!sut.contains(45));
    let val = sut.head.unwrap().value;
    assert_eq!(val, 56);
    assert_eq!(sut.len, 5);
    println!("{}", val);
}

#[test]
fn test_get_length() {
    let mut sut = LinkedList::from(vec![1, 2, 4, 5, 6]);

    let head = sut.head.take().unwrap();

    let test = LinkedList::from_node(*head);

    assert_eq!(test.len, 5)
}

#[test]
fn test_pop_front() {
    let mut sut = LinkedList::new();
    sut.append(1);
    sut.append(2);

    assert_eq!(sut.pop_front(), Some(1))
}

#[test]
fn linked_list_test_iter_count() {
    let sut = LinkedList::from(vec![1, 2, 3, 4, 5]);
    assert_eq!(sut.iter().count(), 5);
}

#[test]
fn linked_list_test_iter_loop() {
    let sut = LinkedList::from(vec![1, 2, 3, 4, 5]);
    let mut iter_sut = sut.iter();
    assert_eq!(iter_sut.next(), Some(1));
    assert_eq!(iter_sut.next(), Some(2));
    assert_eq!(iter_sut.next(), Some(3));
    assert_eq!(iter_sut.next(), Some(4));
    assert_eq!(iter_sut.next(), Some(5));
}

#[test]
fn linked_list_test_into_iter() {
    let sut = LinkedList::from(vec![1, 2, 3, 4, 5]);
    let mut iter_sut = sut.into_iter();
    assert_eq!(iter_sut.next(), Some(1));
    assert_eq!(iter_sut.next(), Some(2));
    assert_eq!(iter_sut.next(), Some(3));
    assert_eq!(iter_sut.next(), Some(4));
    assert_eq!(iter_sut.next(), Some(5));
}

#[test]
fn test_sort() {
    let mut sut = LinkedList::from(vec![5, 4, 3, 2, 1]);
    assert!(!sut.is_sorted());
    sut.sort();
    assert!(sut.is_sorted());

    let mut iter_sut = sut.iter();
    assert_eq!(iter_sut.next(), Some(1));
    assert_eq!(iter_sut.next(), Some(2));
    assert_eq!(iter_sut.next(), Some(3));
    assert_eq!(iter_sut.next(), Some(4));
    assert_eq!(iter_sut.next(), Some(5));
}

#[test]
fn test_sort_advanced() {
    let mut sut = LinkedList::from(vec![
        1938, 234, 239842, 28, 32, 2, 4, 2382, 1093482, 23, 34, 89, 2,
    ]);
    assert!(!sut.is_sorted());
    sut.sort();
    assert!(sut.is_sorted());
}

#[test]
fn sort_keeps_every_element() {
    let mut sut = LinkedList::from(vec![9, 1, 9, 3, 1]);
    sut.sort();
    let mut it = sut.iter();
    assert_eq!(it.next(), Some(1));
    assert_eq!(it.next(), Some(1));
    assert_eq!(it.next(), Some(3));
    assert_eq!(it.next(), Some(9));
    assert_eq!(it.next(), Some(9));
    assert_eq!(it.next(), None);
}

#[test]
fn sort_handles_tiny_lists() {
    let mut empty = LinkedList::new();
    empty.sort();
    assert!(empty.is_empty());

    let mut single = LinkedList::from(vec![7]);
    single.sort();
    assert!(single.is_sorted());
    assert_eq!(single.pop_front(), Some(7));
}

#[test]
fn empty_list_is_not_sorted() {
    let sut = LinkedList::new();
    assert!(!sut.is_sorted());
}

#[test]
fn remove_out_of_range_reports_false() {
    let mut sut = LinkedList::from(vec![1, 2]);
    assert_eq!(sut.remove(2), false);
    assert_eq!(sut.len, 2);
    assert_eq!(sut.pop_front(), Some(1));
}
