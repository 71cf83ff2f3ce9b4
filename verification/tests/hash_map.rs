use data_structures::hash_map::HashMap;

#[test]
fn hash_map_test_insert() {
    let mut sut = HashMap::new();
    sut.insert(1, "Colin ist dof");

    assert!(!sut.is_empty());
}

#[test]
fn test_get_bucket() {
    let mut sut = HashMap::<()>::new();
    // insert something to hold is_empty invariant
    sut.insert(42, ());

    assert_eq!(sut.get_bucket(&1), sut.get_bucket(&1));
    assert_eq!(sut.get_bucket(&11201020120), sut.get_bucket(&11201020120));
}

#[test]
fn test_get() {
    let mut sut = HashMap::new();
    sut.insert(1, "Colin ist dof");

    assert_eq!(sut.get(1), Some(&"Colin ist dof"));
    assert!(!sut.is_empty());
}

#[test]
fn test_get_int() {
    let mut sut = HashMap::new();
    sut.insert(1, 42);

    assert_eq!(sut.get(1), Some(&42));
    assert_eq!(sut.get(2), None);
    assert!(!sut.is_empty());
}

#[test]
fn test_remove() {
    let mut sut = HashMap::new();
    sut.insert(45, "value");
    sut.insert(98, "sec_value");

    assert_eq!(sut.get(45), Some(&"value"));
    sut.remove(45);
    assert_eq!(sut.get(45), None);
}

#[test]
fn insert_overwrites_existing_key() {
    let mut sut = HashMap::new();
    sut.insert(7, 1);
    sut.insert(7, 2);
    assert_eq!(sut.get(7), Some(&2));
}

#[test]
fn remove_reports_the_removed_value() {
    let mut sut = HashMap::new();
    sut.insert(3, 30);
    assert_eq!(sut.remove(3), Some(30));
    assert_eq!(sut.remove(3), None);
    assert_eq!(sut.remove(4), None);
}

#[test]
fn empty_map_behaviour() {
    let mut sut = HashMap::<u64>::new();
    assert!(sut.is_empty());
    assert_eq!(sut.get(1), None);
    assert!(!sut.contains_key(1));
    assert_eq!(sut.remove(1), None);
}

#[test]
fn colliding_keys_live_side_by_side() {
    // With seven buckets two of these keys are bound to collide; all
    // must stay retrievable with their own values.
    let mut sut = HashMap::new();
    for k in 0..32u64 {
        sut.insert(k, k * 10);
    }
    for k in 0..32u64 {
        assert_eq!(sut.get(k), Some(&(k * 10)));
        assert!(sut.contains_key(k));
    }
    assert!(!sut.contains_key(32));
}
