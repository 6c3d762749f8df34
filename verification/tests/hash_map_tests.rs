use hash_collections::FixedSizeHashMap;

type MyMap = FixedSizeHashMap<String, u64, 13>;

fn add_some_data(map: &mut MyMap, num: i32) {
    let keys = ["foo", "bar", "baz", "bat", "boo", "fat"];
    for (i, key) in keys.iter().enumerate() {
        if i as i32 == num {
            break;
        }
        assert!(map.insert(String::from(*key), (i as u64 + 1) * 100).is_ok());
    }
}

#[test]
fn tests_insert_and_get_items() {
    let mut fixed_size_map = MyMap::new();
    assert!(fixed_size_map.capacity() == 13);
    assert!(fixed_size_map.size() == 0);
    assert!(fixed_size_map.contains(&String::from("foo")) == false);
    assert!(fixed_size_map.get(&String::from("foo")) == None);
    assert!(fixed_size_map.head() == None);
    assert!(fixed_size_map.tail() == None);

    add_some_data(&mut fixed_size_map, 3);

    assert!(fixed_size_map.capacity() == 13);
    assert_eq!(fixed_size_map.size(), 3);
    assert!(
        fixed_size_map.contains(&String::from("foo"))
            && fixed_size_map.contains(&String::from("bar"))
            && fixed_size_map.contains(&String::from("baz"))
    );
    assert_eq!(fixed_size_map.get(&String::from("foo")), Some(&100));
    assert_eq!(fixed_size_map.get(&String::from("bar")), Some(&200));
    assert_eq!(fixed_size_map.get(&String::from("baz")), Some(&300));
    assert_eq!(fixed_size_map.head(), Some((&String::from("foo"), &100)));
    assert_eq!(fixed_size_map.tail(), Some((&String::from("baz"), &300)));
}

#[test]
fn tests_update_items() {
    let mut fixed_size_map = MyMap::new();
    add_some_data(&mut fixed_size_map, 4);
    assert_eq!(fixed_size_map.size(), 4);

    let old_val = fixed_size_map.insert(String::from("bar"), 2000);

    assert_eq!(fixed_size_map.size(), 4);
    assert!(fixed_size_map.get(&String::from("bar")) == Some(&2000));
    assert_eq!(old_val, Ok(Some(200)));
}

#[test]
fn tests_remove_items_from_middle() {
    let mut fixed_size_map = MyMap::new();
    add_some_data(&mut fixed_size_map, 4);
    assert!(fixed_size_map.size() == 4);

    let old_val_of_bar = fixed_size_map.remove(&String::from("bar"));
    let old_val_of_baz = fixed_size_map.remove(&String::from("baz"));

    assert_eq!(fixed_size_map.size(), 2);
    assert_eq!(old_val_of_bar, Some(200));
    assert_eq!(old_val_of_baz, Some(300));
    assert_eq!(fixed_size_map.contains(&String::from("bar")), false);
    assert_eq!(fixed_size_map.contains(&String::from("zoo")), false);
    assert_eq!(fixed_size_map.head(), Some((&String::from("foo"), &100)));
    assert_eq!(fixed_size_map.tail(), Some((&String::from("bat"), &400)));
}

#[test]
fn tests_remove_head_and_tail_item() {
    let mut fixed_size_map = MyMap::new();
    add_some_data(&mut fixed_size_map, 4);
    assert!(fixed_size_map.size() == 4);

    let _ = fixed_size_map.remove(&String::from("bat"));
    let _ = fixed_size_map.remove(&String::from("foo"));

    assert_eq!(fixed_size_map.size(), 2);
    assert_eq!(fixed_size_map.head(), Some((&String::from("bar"), &200)));
    assert_eq!(fixed_size_map.tail(), Some((&String::from("baz"), &300)));
}

#[test]
fn tests_remove_non_existent_item() {
    let mut fixed_size_map = MyMap::new();
    add_some_data(&mut fixed_size_map, 4);
    assert!(fixed_size_map.size() == 4);

    let old_val_of_zoo = fixed_size_map.remove(&String::from("zoo"));

    assert_eq!(fixed_size_map.size(), 4);
    assert_eq!(old_val_of_zoo, None);
    assert_eq!(fixed_size_map.head(), Some((&String::from("foo"), &100)));
    assert_eq!(fixed_size_map.tail(), Some((&String::from("bat"), &400)));
}

#[test]
fn in_place_update() {
    let mut fixed_size_map = MyMap::new();
    add_some_data(&mut fixed_size_map, 4);
    assert!(fixed_size_map.size() == 4);

    fixed_size_map.get_mut(&String::from("bar")).and_then(|v| {
        *v += 1000;
        Some(true)
    });
    assert_eq!(fixed_size_map.get(&String::from("bar")), Some(&1200));
}

#[test]
fn indexed_read_and_mutate() {
    let mut fixed_size_map = MyMap::new();
    add_some_data(&mut fixed_size_map, 4);
    assert!(fixed_size_map.size() == 4);

    assert_eq!(fixed_size_map[&String::from("bar")], 200);
    *fixed_size_map.index_mut(&String::from("bar")) += 1000;

    assert_eq!(fixed_size_map.get(&String::from("bar")), Some(&1200));
}

#[test]
fn tests_forward_iteration() {
    let mut fixed_size_map = MyMap::new();
    add_some_data(&mut fixed_size_map, 4);
    assert!(fixed_size_map.size() == 4);

    let mut iter = fixed_size_map.iter_head();

    assert_eq!(iter.size_hint(), (4, Some(4)));
    assert_eq!(iter.next(), Some((&String::from("foo"), &100)));
    assert_eq!(iter.size_hint(), (3, Some(3)));
    assert_eq!(iter.next(), Some((&String::from("bar"), &200)));
    assert_eq!(iter.size_hint(), (2, Some(2)));
    assert_eq!(iter.next(), Some((&String::from("baz"), &300)));
    assert_eq!(iter.size_hint(), (1, Some(1)));
    assert_eq!(iter.next(), Some((&String::from("bat"), &400)));
    assert_eq!(iter.size_hint(), (0, Some(0)));
    assert_eq!(iter.next(), None);
    assert_eq!(iter.next(), None);
}

#[test]
fn tests_backward_iteration() {
    let mut fixed_size_map = MyMap::new();
    add_some_data(&mut fixed_size_map, 4);
    assert!(fixed_size_map.size() == 4);

    let mut iter = fixed_size_map.iter_tail();

    assert_eq!(iter.size_hint(), (4, Some(4)));
    assert_eq!(iter.next(), Some((&String::from("bat"), &400)));
    assert_eq!(iter.size_hint(), (3, Some(3)));
    assert_eq!(iter.next(), Some((&String::from("baz"), &300)));
    assert_eq!(iter.size_hint(), (2, Some(2)));
    assert_eq!(iter.next(), Some((&String::from("bar"), &200)));
    assert_eq!(iter.size_hint(), (1, Some(1)));
    assert_eq!(iter.next(), Some((&String::from("foo"), &100)));
    assert_eq!(iter.size_hint(), (0, Some(0)));
    assert_eq!(iter.next(), None);
    assert_eq!(iter.next(), None);
}

fn keys_from_head(map: &MyMap) -> Vec<String> {
    let mut keys = Vec::new();
    let mut iter = map.iter_head();
    while let Some((key, _)) = iter.next() {
        keys.push(key.clone());
    }
    keys
}

fn keys_from_tail(map: &MyMap) -> Vec<String> {
    let mut keys = Vec::new();
    let mut iter = map.iter_tail();
    while let Some((key, _)) = iter.next() {
        keys.push(key.clone());
    }
    keys
}

#[test]
fn the_fourteenth_key_finds_no_room_among_thirteen() {
    let mut map = MyMap::new();
    for i in 0..13u64 {
        assert_eq!(map.insert(format!("key{}", i), i), Ok(None));
        assert_eq!(map.size(), i as usize + 1);
    }
    let failed = map.insert(String::from("one more"), 13);
    assert_eq!(failed.map_err(|error| error.capacity), Err(13));
    assert_eq!(map.size(), 13);
    assert_eq!(map.contains(&String::from("one more")), false);
    assert_eq!(keys_from_head(&map).len(), 13);

    assert_eq!(map.insert(String::from("key4"), 40), Ok(Some(4)));
    assert_eq!(map.size(), 13);
    assert_eq!(map.remove(&String::from("key0")), Some(0));
    assert_eq!(map.insert(String::from("one more"), 13), Ok(None));
    assert_eq!(map.size(), 13);
}

#[test]
fn a_key_written_again_becomes_the_newest() {
    let mut map = MyMap::new();
    add_some_data(&mut map, 4);
    assert_eq!(map.insert(String::from("bar"), 2000), Ok(Some(200)));
    assert_eq!(map.size(), 4);
    assert_eq!(keys_from_head(&map), vec!["foo", "baz", "bat", "bar"]);
    assert_eq!(map.tail(), Some((&String::from("bar"), &2000)));
    assert_eq!(map.insert(String::from("foo"), 1), Ok(Some(100)));
    assert_eq!(keys_from_head(&map), vec!["baz", "bat", "bar", "foo"]);
    assert_eq!(map.head(), Some((&String::from("baz"), &300)));
    assert_eq!(map.insert(String::from("foo"), 2), Ok(Some(1)));
    assert_eq!(keys_from_head(&map), vec!["baz", "bat", "bar", "foo"]);
}

#[test]
fn entries_come_out_in_the_order_of_insertion_and_back() {
    let mut map = MyMap::new();
    add_some_data(&mut map, 6);
    assert_eq!(keys_from_head(&map), vec!["foo", "bar", "baz", "bat", "boo", "fat"]);
    assert_eq!(keys_from_tail(&map), vec!["fat", "boo", "bat", "baz", "bar", "foo"]);
    assert_eq!(map.iter_head().count(), 6);
}

#[test]
fn a_removed_key_leaves_the_iteration() {
    let mut map = MyMap::new();
    add_some_data(&mut map, 5);
    assert_eq!(map.remove(&String::from("baz")), Some(300));
    assert_eq!(map.size(), 4);
    assert_eq!(keys_from_head(&map), vec!["foo", "bar", "bat", "boo"]);
    assert_eq!(keys_from_tail(&map), vec!["boo", "bat", "bar", "foo"]);
    assert_eq!(map.remove(&String::from("baz")), None);
    assert_eq!(map.size(), 4);
    assert_eq!(keys_from_head(&map), vec!["foo", "bar", "bat", "boo"]);
}

#[test]
fn insert_or_counts_in_place() {
    let mut map = MyMap::new();
    add_some_data(&mut map, 3);
    assert_eq!(map.insert_or(String::from("hits"), 1, |count| *count += 1), Ok(()));
    assert_eq!(map.get(&String::from("hits")), Some(&1));
    assert_eq!(map.insert_or(String::from("hits"), 1, |count| *count += 1), Ok(()));
    assert_eq!(map.insert_or(String::from("hits"), 1, |count| *count += 1), Ok(()));
    assert_eq!(map.get(&String::from("hits")), Some(&3));
    assert_eq!(map.insert_or(String::from("foo"), 1, |count| *count += 1), Ok(()));
    assert_eq!(map.get(&String::from("foo")), Some(&101));
    assert_eq!(keys_from_head(&map), vec!["foo", "bar", "baz", "hits"]);
}

#[test]
fn insert_or_fails_only_for_a_new_key_in_a_full_map() {
    let mut map = FixedSizeHashMap::<u32, u32, 2>::new();
    assert_eq!(map.insert_or(1, 10, |value| *value += 1), Ok(()));
    assert_eq!(map.insert_or(2, 20, |value| *value += 1), Ok(()));
    let failed = map.insert_or(3, 30, |value| *value += 1);
    assert_eq!(failed.map_err(|error| error.capacity), Err(2));
    assert_eq!(map.insert_or(2, 0, |value| *value += 1), Ok(()));
    assert_eq!(map.get(&2), Some(&21));
    assert_eq!(map.get(&3), None);
}

#[test]
fn a_changed_value_keeps_its_place() {
    let mut map = MyMap::new();
    add_some_data(&mut map, 3);
    if let Some(value) = map.get_mut(&String::from("foo")) {
        *value = 7;
    }
    assert_eq!(map.get_mut(&String::from("zoo")), None);
    assert_eq!(map.head(), Some((&String::from("foo"), &7)));
    assert_eq!(keys_from_head(&map), vec!["foo", "bar", "baz"]);
}

#[test]
fn map_rejects_a_capacity_that_is_not_prime() {
    assert!(FixedSizeHashMap::<u64, u64, 50849>::try_new().is_ok());
    let composite = FixedSizeHashMap::<u64, u64, 15>::try_new();
    assert_eq!(composite.map(|_| ()).map_err(|error| error.capacity), Err(15));
    let zero = FixedSizeHashMap::<u64, u64, 0>::try_new();
    assert_eq!(zero.map(|_| ()).map_err(|error| error.capacity), Err(0));
    let one = FixedSizeHashMap::<u64, u64, 1>::try_new();
    assert!(one.is_err());
    let placeholder = FixedSizeHashMap::<u64, u64, 13>::placeholder();
    assert_eq!(placeholder.size(), 0);
}
