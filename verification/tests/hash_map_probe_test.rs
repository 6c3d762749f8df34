use hash_collections::check::{is_prime_and_within_limit, is_valid_capacity, MAX_CAPACITY};
use hash_collections::hash_map_internal::{FixedSizeHashMapImpl, Slot};
use hash_collections::hashing::{hash_u64, KeyHasher};
use std::hash::DefaultHasher;

struct HighCollisionHasher {}

impl KeyHasher<String> for HighCollisionHasher {
    fn hash_of(_: vstd::seq::Seq<char>) -> u64 {
        3
    }

    fn hash(_: &String) -> u64 {
        3
    }
}

type MyHighCollisionMap = FixedSizeHashMapImpl<String, String, 7, HighCollisionHasher>;

fn add_some_data(map: &mut MyHighCollisionMap, num: i32) {
    let keys = ["foo", "bar", "baz", "bat", "boo", "fat", "qux"];
    for (i, key) in keys.iter().enumerate() {
        if i as i32 == num {
            break;
        }
        assert!(map.insert(String::from(*key), ((i as u64 + 1) * 100).to_string()).is_ok());
    }
}

fn pair_of<'a>(
    entry: Option<&'a hash_collections::hash_map_internal::MapEntry<String, String, 7>>,
) -> Option<(&'a String, &'a String)> {
    entry.map(|entry| (entry.key(), entry.value()))
}

#[test]
fn insert_and_get_colliding_items() {
    let mut high_collision_map = MyHighCollisionMap::new();

    add_some_data(&mut high_collision_map, 3);

    assert_eq!(high_collision_map.size(), 3);
    assert!(
        high_collision_map.contains(&String::from("foo"))
            && high_collision_map.contains(&String::from("bar"))
            && high_collision_map.contains(&String::from("baz"))
    );
    assert_eq!(high_collision_map.get(&String::from("foo")), Some(&"100".to_string()));
    assert_eq!(high_collision_map.get(&String::from("bar")), Some(&"200".to_string()));
    assert_eq!(high_collision_map.get(&String::from("baz")), Some(&"300".to_string()));
    assert_eq!(
        pair_of(high_collision_map.head()),
        Some((&String::from("foo"), &"100".to_string()))
    );
    assert_eq!(
        pair_of(high_collision_map.tail()),
        Some((&String::from("baz"), &"300".to_string()))
    );
}

#[test]
fn hash_map_probe_test_update_items() {
    let mut high_collision_map = MyHighCollisionMap::new();
    add_some_data(&mut high_collision_map, 4);
    assert_eq!(high_collision_map.size(), 4);

    let old_val = high_collision_map.insert(String::from("bar"), String::from("2000"));

    assert_eq!(high_collision_map.size(), 4);
    assert!(high_collision_map.get(&String::from("bar")) == Some(&"2000".to_string()));
    assert_eq!(old_val, Ok(Some("200".to_string())));
}

#[test]
fn hash_map_probe_test_remove_items_from_middle() {
    let mut high_collision_map = MyHighCollisionMap::new();
    add_some_data(&mut high_collision_map, 5);
    assert!(high_collision_map.size() == 5);

    let old_val_of_bar = high_collision_map.remove(&String::from("baz"));
    let old_val_of_baz = high_collision_map.remove(&String::from("bat"));

    assert_eq!(high_collision_map.size(), 3);
    assert_eq!(old_val_of_bar.map(|entry| entry.consume_self()), Some("300".to_string()));
    assert_eq!(old_val_of_baz.map(|entry| entry.consume_self()), Some("400".to_string()));
    assert_eq!(high_collision_map.contains(&String::from("baz")), false);
    assert_eq!(high_collision_map.contains(&String::from("bat")), false);
    assert_eq!(high_collision_map[&String::from("foo")], "100".to_string());
    assert_eq!(high_collision_map[&String::from("bar")], "200".to_string());
    assert_eq!(high_collision_map[&String::from("boo")], "500".to_string());
}

#[test]
fn colliding_keys_take_the_slots_after_their_home_slot() {
    let mut map = MyHighCollisionMap::new();
    assert_eq!(map.insert_get_index(String::from("foo"), String::from("1")), Ok((3, None)));
    assert_eq!(map.insert_get_index(String::from("bar"), String::from("2")), Ok((4, None)));
    assert_eq!(map.insert_get_index(String::from("baz"), String::from("3")), Ok((5, None)));
    assert_eq!(map.insert_get_index(String::from("bat"), String::from("4")), Ok((6, None)));
    assert_eq!(map.insert_get_index(String::from("boo"), String::from("5")), Ok((0, None)));
    assert_eq!(map.get_index_of(&String::from("boo")), Some(0));
    assert_eq!(map.get_index_of(&String::from("zoo")), None);
    assert_eq!(
        map.insert_get_index(String::from("bar"), String::from("20")),
        Ok((4, Some(String::from("2"))))
    );
    assert_eq!(pair_of(map.get_entry_at(4)), Some((&String::from("bar"), &String::from("20"))));
    assert_eq!(pair_of(map.get_entry_at(1)), None);
    assert_eq!(pair_of(map.get_entry_at(7)), None);
    assert_eq!(pair_of(map.get_entry_at(8)), None);
}

#[test]
fn a_search_passes_over_a_vacated_slot_and_an_insertion_takes_it() {
    let mut map = MyHighCollisionMap::new();
    add_some_data(&mut map, 3);
    assert!(map.remove(&String::from("foo")).is_some());
    assert_eq!(map.get_index_of(&String::from("bar")), Some(4));
    assert_eq!(map.get_index_of(&String::from("baz")), Some(5));
    assert_eq!(map.get_index_of(&String::from("foo")), None);

    assert_eq!(
        map.insert_get_index(String::from("baz"), String::from("3000")),
        Ok((5, Some(String::from("300"))))
    );
    assert_eq!(map.size(), 2);

    assert_eq!(map.insert_get_index(String::from("new"), String::from("9")), Ok((3, None)));
    assert_eq!(map.size(), 3);
    assert_eq!(pair_of(map.head()), Some((&String::from("bar"), &String::from("200"))));
    assert_eq!(pair_of(map.tail()), Some((&String::from("new"), &String::from("9"))));
}

#[test]
fn a_full_cycle_of_probing_ends_without_a_slot() {
    let mut map = MyHighCollisionMap::new();
    add_some_data(&mut map, 7);
    assert_eq!(map.size(), 7);
    assert_eq!(map.get_index_of(&String::from("qux")), Some(2));
    assert_eq!(map.get_index_of(&String::from("zoo")), None);
    assert_eq!(map.contains(&String::from("zoo")), false);
    let failed = map.insert_get_index(String::from("zoo"), String::from("8"));
    assert_eq!(failed.map_err(|error| error.capacity), Err(7));
    assert_eq!(map.size(), 7);
    assert!(map.remove(&String::from("zoo")).is_none());

    for key in ["foo", "bar", "baz", "bat", "boo", "fat", "qux"] {
        assert!(map.remove(&String::from(key)).is_some());
    }
    assert_eq!(map.size(), 0);
    assert_eq!(pair_of(map.head()), None);
    assert_eq!(map.get_index_of(&String::from("foo")), None);
    assert_eq!(map.insert_get_index(String::from("zoo"), String::from("8")), Ok((3, None)));
}

#[test]
fn values_at_the_ends_can_be_changed_in_place() {
    let mut map = MyHighCollisionMap::new();
    assert!(map.mut_head().is_none());
    assert!(map.mut_tail().is_none());
    add_some_data(&mut map, 3);
    if let Some(value) = map.mut_head() {
        value.push_str("!");
    }
    if let Some(value) = map.mut_tail() {
        value.push_str("?");
    }
    if let Some(value) = map.get_mut_entry_at(4) {
        value.push_str("+");
    }
    assert!(map.get_mut_entry_at(0).is_none());
    if let Some((value, index)) = map.get_mut_entry_and_index_of(&String::from("bar")) {
        assert_eq!(index, 4);
        value.push_str("+");
    }
    assert_eq!(map.get(&String::from("foo")), Some(&String::from("100!")));
    assert_eq!(map.get(&String::from("bar")), Some(&String::from("200++")));
    assert_eq!(map.get(&String::from("baz")), Some(&String::from("300?")));
    map.move_to_back(3);
    assert_eq!(pair_of(map.tail()), Some((&String::from("foo"), &String::from("100!"))));
    assert_eq!(pair_of(map.head()), Some((&String::from("bar"), &String::from("200++"))));
}

#[test]
fn a_slot_gives_up_what_it_holds_once() {
    let mut slot: Slot<u8> = Slot::default();
    assert_eq!(slot.is_occupied(), false);
    assert_eq!(slot.take(), None);
    assert!(matches!(slot, Slot::Empty));
    slot = Slot::IsOccupiedBy(9);
    assert_eq!(slot.is_occupied(), true);
    assert_eq!(slot.take(), Some(9));
    assert!(matches!(slot, Slot::WasOccupied));
    assert_eq!(slot.take(), None);
    assert!(matches!(slot, Slot::WasOccupied));
}

#[test]
fn capacities_are_primes_within_the_limit() {
    assert_eq!(is_prime_and_within_limit(13, 25013), true);
    assert_eq!(is_prime_and_within_limit(25013, 25013), true);
    assert_eq!(is_prime_and_within_limit(25031, 25013), false);
    assert_eq!(is_prime_and_within_limit(15, 25013), false);
    assert_eq!(is_prime_and_within_limit(0, 25013), false);
    assert_eq!(is_prime_and_within_limit(1, 25013), false);
    assert_eq!(is_prime_and_within_limit(2, 25013), true);
    assert_eq!(is_prime_and_within_limit(7919, 100), false);
    assert_eq!(MAX_CAPACITY, 50849);
    assert_eq!(is_valid_capacity(50849), true);
    assert_eq!(is_valid_capacity(50857), false);
    assert_eq!(is_valid_capacity(151), true);
    assert_eq!(is_valid_capacity(49), false);
}

#[test]
fn the_standard_hasher_gives_a_key_one_hash() {
    let first = <DefaultHasher as KeyHasher<String>>::hash(&String::from("foo"));
    let second = <DefaultHasher as KeyHasher<String>>::hash(&String::from("foo"));
    let other = <DefaultHasher as KeyHasher<String>>::hash(&String::from("bar"));
    assert_eq!(first, second);
    assert_ne!(first, other);
    assert_eq!(<DefaultHasher as KeyHasher<u64>>::hash(&77), hash_u64(77));
    assert_eq!(<DefaultHasher as KeyHasher<usize>>::hash(&77), hash_u64(77));
    assert_eq!(<DefaultHasher as KeyHasher<u32>>::hash(&77), hash_u64(77));
    assert_ne!(hash_u64(77), hash_u64(78));
    assert_ne!(hash_u64(1), hash_u64(256));
}
