use theta::proto::decode::Decode;
use theta::proto::encode::Encode;
use theta::util::slot_map::{HashSlotMap, SlotMap, SlotMapKey, SlotSet, SlotSetInsertError};

fn key(index: u32, generation: u32) -> SlotMapKey {
    SlotMapKey { index, generation }
}

#[test]
fn keys_name_their_entries() {
    let mut map: SlotMap<&str> = SlotMap::new();
    let a = map.add(|_| Some("a"));
    let b = map.add(|_| Some("b"));
    assert_eq!(key(0, 0), a);
    assert_eq!(key(1, 0), b);
    assert_eq!(Some(&"a"), map.get(a));
    assert_eq!(Some(&"b"), map.get(b));
    assert_eq!(2, map.len());
    assert!(!map.is_empty());
    assert_eq!(vec![&"a", &"b"], map.iter());
}

#[test]
fn added_value_learns_its_key() {
    let mut map: SlotMap<SlotMapKey> = SlotMap::default();
    let a = map.add(|key| Some(key));
    assert_eq!(Some(&a), map.get(a));
}

#[test]
fn removed_entry_is_gone_and_its_key_is_never_used_again() {
    let mut map: SlotMap<u8> = SlotMap::new();
    let a = map.add(|_| Some(1));
    assert_eq!(Some(1), map.remove(a));
    assert_eq!(None, map.remove(a));
    assert_eq!(None, map.get(a));
    assert!(map.is_empty());
    let b = map.add(|_| Some(2));
    assert_eq!(key(0, 1), b);
    assert_eq!(None, map.get(a));
    assert_eq!(Some(&2), map.get(b));
}

#[test]
fn the_slot_that_was_freed_last_is_used_first() {
    let mut map: SlotMap<u8> = SlotMap::new();
    let keys: Vec<SlotMapKey> = (0..3).map(|i| map.add(|_| Some(i))).collect();
    map.remove(keys[0]);
    map.remove(keys[2]);
    assert_eq!(key(2, 1), map.add(|_| Some(7)));
    assert_eq!(key(0, 1), map.add(|_| Some(8)));
    assert_eq!(key(3, 0), map.add(|_| Some(9)));
}

#[test]
fn removing_where_there_is_no_slot_does_nothing() {
    let mut map: SlotMap<u8> = SlotMap::new();
    assert_eq!(None, map.remove(key(5, 0)));
    assert_eq!(0, map.len());
}

#[test]
fn values_can_be_changed_in_place() {
    let mut map: SlotMap<u8> = SlotMap::new();
    let a = map.add(|_| Some(1));
    let b = map.add(|_| Some(2));
    *map.get_mut(a).unwrap() = 10;
    for value in map.iter_mut() {
        *value += 1;
    }
    assert_eq!(Some(&11), map.get(a));
    assert_eq!(Some(&3), map.get(b));
    assert!(map.get_mut(key(0, 9)).is_none());
}

#[test]
fn retain_if_drops_what_the_function_picks() {
    let mut map: SlotMap<u8> = SlotMap::new();
    let keys: Vec<SlotMapKey> = (0..4).map(|i| map.add(|_| Some(i))).collect();
    map.retain_if(|value| {
        *value += 10;
        *value % 2 == 1
    });
    assert_eq!(Some(&10), map.get(keys[0]));
    assert_eq!(None, map.get(keys[1]));
    assert_eq!(Some(&12), map.get(keys[2]));
    assert_eq!(None, map.get(keys[3]));
    assert_eq!(2, map.len());
    assert_eq!(key(3, 1), map.add(|_| Some(0)));
}

#[test]
fn clear_keeps_the_generations() {
    let mut map: SlotMap<u8> = SlotMap::new();
    let a = map.add(|_| Some(1));
    map.clear();
    assert!(map.is_empty());
    assert_eq!(None, map.get(a));
    assert_eq!(key(0, 1), map.add(|_| Some(1)));
}

#[test]
fn length_is_the_number_of_values() {
    let mut map: SlotMap<u32> = SlotMap::new();
    let mut keys = vec![];
    for i in 0..20u32 {
        keys.push(map.add(|_| Some(i)));
        if i % 3 == 0 {
            map.remove(keys[(i / 2) as usize]);
        }
        if i % 7 == 6 {
            map.retain_if(|value| *value % 2 == 0);
        }
        if i == 13 {
            map.clear();
        }
        assert_eq!(map.len(), map.iter().len());
        assert_eq!(map.len(), keys.iter().filter(|key| map.get(**key).is_some()).count());
    }
}

#[test]
fn key_round_trip() {
    let mut out = vec![];
    assert!(key(300, 1).encode(&mut out).is_ok());
    assert_eq!(vec![0xac, 2, 1], out);
    assert_eq!(Ok(key(300, 1)), SlotMapKey::decode(&mut out.as_slice()));
    assert_eq!(Err(()), SlotMapKey::decode(&mut &out[..2]));
    assert_eq!(300, key(300, 1).index());
    assert_eq!(1, key(300, 1).generation());
}

#[test]
fn longest_key_takes_ten_bytes() {
    let mut out = vec![];
    assert!(key(u32::MAX, u32::MAX).encode(&mut out).is_ok());
    assert_eq!(10, out.len());
}

#[test]
fn hash_slot_map_checks_the_generation() {
    let mut map: HashSlotMap<&str> = HashSlotMap::default();
    assert_eq!(None, map.insert(key(7, 1), "a"));
    assert_eq!(Some(&"a"), map.get(key(7, 1)));
    assert_eq!(None, map.get(key(7, 0)));
    assert_eq!(None, map.remove(key(7, 2)));
    *map.get_mut(key(7, 1)).unwrap() = "b";
    assert_eq!(1, map.len());
    assert_eq!(Some("b"), map.insert(key(7, 1), "d"));
    assert_eq!(None, map.insert(key(7, 2), "c"));
    assert_eq!(None, map.get(key(7, 1)));
    assert_eq!(Some("c"), map.remove(key(7, 2)));
    assert_eq!(0, map.len());
}

#[test]
fn slot_set_tells_what_is_there_already() {
    let mut set = SlotSet::default();
    assert_eq!(Ok(()), set.insert(key(1, 2)));
    assert_eq!(Ok(()), set.insert(key(2, 1)));
    let again = set.insert(key(1, 2));
    assert_eq!(Err(SlotSetInsertError::InsertedError), again);
    assert_eq!(
        "The key was already inserted into the set",
        again.unwrap_err().message()
    );
    set.clear();
    assert_eq!(Ok(()), set.insert(key(1, 2)));
}
