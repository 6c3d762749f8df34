use hash_collections::FixedSizeHashSet;

type MySet = FixedSizeHashSet<String, 13>;

fn add_some_data(set: &mut MySet, num: usize) {
    let keys = ["foo", "bar", "baz", "bat", "boo", "fat"];

    keys.iter()
        .enumerate()
        .filter(|(i, _)| *i < num)
        .for_each(|(_, k)| {
            assert!(set.insert(k.to_string()).is_ok());
        });
}

#[test]
fn hash_set_tests_insert_and_get_items() {
    let mut fixed_size_set = MySet::new();
    assert!(fixed_size_set.capacity() == 13);
    assert!(fixed_size_set.size() == 0);
    assert!(fixed_size_set.contains(&String::from("foo")) == false);
    assert!(fixed_size_set.head() == None);
    assert!(fixed_size_set.tail() == None);

    add_some_data(&mut fixed_size_set, 3);

    assert!(fixed_size_set.capacity() == 13);
    assert_eq!(fixed_size_set.size(), 3);
    assert!(
        fixed_size_set.contains(&String::from("foo"))
            && fixed_size_set.contains(&String::from("bar"))
            && fixed_size_set.contains(&String::from("baz"))
    );

    assert_eq!(fixed_size_set.tail(), Some(&String::from("baz")));
    assert_eq!(fixed_size_set.head(), Some(&String::from("foo")));
}

#[test]
fn hash_set_tests_remove_items_from_middle() {
    let mut fixed_size_set = MySet::new();
    add_some_data(&mut fixed_size_set, 4);
    assert!(fixed_size_set.size() == 4);

    assert!(fixed_size_set.remove(&String::from("bar")));
    assert!(fixed_size_set.remove(&String::from("baz")));

    assert_eq!(fixed_size_set.size(), 2);
    assert_eq!(fixed_size_set.contains(&String::from("bar")), false);
    assert_eq!(fixed_size_set.contains(&String::from("zoo")), false);
    assert_eq!(fixed_size_set.tail(), Some(&String::from("bat")));
    assert_eq!(fixed_size_set.head(), Some(&String::from("foo")));
}

#[test]
fn hash_set_tests_remove_head_and_tail_item() {
    let mut fixed_size_set = MySet::new();
    add_some_data(&mut fixed_size_set, 4);
    assert!(fixed_size_set.size() == 4);

    assert!(fixed_size_set.remove(&String::from("bat")));
    assert!(fixed_size_set.remove(&String::from("foo")));

    assert_eq!(fixed_size_set.size(), 2);
    assert_eq!(fixed_size_set.tail(), Some(&String::from("baz")));
    assert_eq!(fixed_size_set.head(), Some(&String::from("bar")));
}

#[test]
fn hash_set_tests_remove_non_existent_item() {
    let mut fixed_size_set = MySet::new();
    add_some_data(&mut fixed_size_set, 4);
    assert!(fixed_size_set.size() == 4);

    assert_eq!(fixed_size_set.remove(&String::from("zoo")), false);

    assert_eq!(fixed_size_set.size(), 4);
    assert_eq!(fixed_size_set.tail(), Some(&String::from("bat")));
    assert_eq!(fixed_size_set.head(), Some(&String::from("foo")));
}

#[test]
fn hash_set_tests_backward_iteration() {
    let mut fixed_size_set = MySet::new();
    add_some_data(&mut fixed_size_set, 4);
    assert!(fixed_size_set.size() == 4);

    let mut iter = fixed_size_set.iter_tail();

    assert_eq!(iter.size_hint(), (4, Some(4)));
    assert_eq!(iter.next(), Some(&String::from("bat")));
    assert_eq!(iter.size_hint(), (3, Some(3)));
    assert_eq!(iter.next(), Some(&String::from("baz")));
    assert_eq!(iter.size_hint(), (2, Some(2)));
    assert_eq!(iter.next(), Some(&String::from("bar")));
    assert_eq!(iter.size_hint(), (1, Some(1)));
    assert_eq!(iter.next(), Some(&String::from("foo")));
    assert_eq!(iter.size_hint(), (0, Some(0)));
    assert_eq!(iter.next(), None);
    assert_eq!(iter.next(), None);
}

#[test]
fn hash_set_tests_forward_iteration() {
    let mut fixed_size_set = MySet::new();
    add_some_data(&mut fixed_size_set, 4);
    assert!(fixed_size_set.size() == 4);

    let mut iter = fixed_size_set.iter_head();

    assert_eq!(iter.size_hint(), (4, Some(4)));
    assert_eq!(iter.next(), Some(&String::from("foo")));
    assert_eq!(iter.size_hint(), (3, Some(3)));
    assert_eq!(iter.next(), Some(&String::from("bar")));
    assert_eq!(iter.size_hint(), (2, Some(2)));
    assert_eq!(iter.next(), Some(&String::from("baz")));
    assert_eq!(iter.size_hint(), (1, Some(1)));
    assert_eq!(iter.next(), Some(&String::from("bat")));
    assert_eq!(iter.size_hint(), (0, Some(0)));
    assert_eq!(iter.next(), None);
    assert_eq!(iter.next(), None);
}

#[test]
fn insert_same_item_multiple_times() {
    let mut myset = FixedSizeHashSet::<u64, 13>::new();

    assert!(myset.insert(5).is_ok_and(|r| r == true));
    assert!(myset.insert(5).is_ok_and(|r| r == false));
    assert!(myset.insert(5).is_ok_and(|r| r == false));

    assert_eq!(myset.size(), 1)
}

#[test]
fn set_scenario_with_removals() {
    let mut set = MySet::new();
    for key in ["foo", "bar", "baz", "bat"] {
        assert_eq!(set.insert(key.to_string()), Ok(true));
    }
    assert_eq!(set.head(), Some(&"foo".to_string()));
    assert_eq!(set.tail(), Some(&"bat".to_string()));
    assert_eq!(set.size(), 4);

    assert!(set.remove(&"bar".to_string()));
    assert!(set.remove(&"baz".to_string()));
    assert_eq!(set.size(), 2);

    let mut iter = set.iter_head();
    let mut seen: Vec<String> = Vec::new();
    while let Some(item) = iter.next() {
        seen.push(item.clone());
    }
    assert_eq!(seen, vec!["foo".to_string(), "bat".to_string()]);
}

#[test]
fn set_keeps_the_place_of_an_item_inserted_again() {
    let mut set = FixedSizeHashSet::<u64, 13>::new();
    assert_eq!(set.insert(1), Ok(true));
    assert_eq!(set.insert(2), Ok(true));
    assert_eq!(set.insert(1), Ok(false));
    assert_eq!(set.head(), Some(&1));
    assert_eq!(set.tail(), Some(&2));
    assert_eq!(set.iter_tail().count(), 2);
}

#[test]
fn set_is_full_after_its_capacity_in_items() {
    let mut set = FixedSizeHashSet::<u32, 7>::new();
    for item in 0..7u32 {
        assert_eq!(set.insert(item), Ok(true));
    }
    let failed = set.insert(7);
    assert_eq!(failed.map_err(|error| error.capacity), Err(7));
    assert_eq!(set.size(), 7);
    assert_eq!(set.insert(3), Ok(false));
    assert!(set.remove(&3));
    assert_eq!(set.insert(7), Ok(true));
    assert_eq!(set.tail(), Some(&7));
}

#[test]
fn set_rejects_a_capacity_that_is_not_prime() {
    assert!(FixedSizeHashSet::<u64, 13>::try_new().is_ok());
    let refused = FixedSizeHashSet::<u64, 12>::try_new();
    assert_eq!(refused.map(|_| ()).map_err(|error| error.capacity), Err(12));
}
