use p1c0_kernel::collections::flat_map::{Error, FlatMap, InsertStrategy};

#[test]
fn test_can_create_map() {
    let _map: FlatMap<String, u32> = FlatMap::new();
}

#[test]
fn test_can_create_map_with_capacity() {
    let _map: FlatMap<String, u32> = FlatMap::with_capacity(1024);
}

#[test]
fn test_can_insert_elements() {
    let mut map = FlatMap::new();
    map.insert("Does this make sense?".to_string(), "cool!".to_string());
}

#[test]
fn test_can_lookup_element() {
    let mut map = FlatMap::new();
    map.insert("Does this make sense?".to_string(), "cool!".to_string());

    let res = map.lookup(&"Does this make sense?".to_string());
    assert!(res.is_some());
    assert!(res.unwrap() == "cool!");

    let res = map.lookup(&"Does this make sense".to_string());
    assert!(res.is_none());
}

#[test]
fn test_can_remove_elements() {
    let mut map = FlatMap::new();
    map.insert("Does this make sense?".to_string(), "cool!".to_string());
    map.insert("second key".to_string(), "nice!".to_string());

    let res = map.lookup(&"Does this make sense?".to_string());
    assert!(res.is_some());
    assert!(res.unwrap() == "cool!");

    let res = map.lookup(&"second key".to_string());
    assert!(res.is_some());
    assert!(res.unwrap() == "nice!");

    let res = map.remove(&"Does this make sense?".to_string());
    assert!(res.is_ok());
    assert!(res.unwrap() == "cool!");

    map.remove(&"Does this make sense?".to_string()).unwrap_err();

    let res = map.lookup(&"Does this make sense?".to_string());
    assert!(res.is_none());

    let res = map.lookup(&"second key".to_string());
    assert!(res.is_some());
    assert!(res.unwrap() == "nice!");
}

#[test]
fn test_automatically_resizes() {
    type StrFlatMap = FlatMap<String, String>;
    let mut map = FlatMap::new();

    assert_eq!(map.capacity(), StrFlatMap::DEFAULT_CAPACITY);

    for i in 0..StrFlatMap::DEFAULT_CAPACITY {
        let key = format!("key {}", i);
        let value = format!("value {}", i);
        map.insert_with_strategy(key, value, InsertStrategy::ErrorOnDuplicate)
            .unwrap();
    }

    assert_eq!(
        map.capacity(),
        StrFlatMap::DEFAULT_CAPACITY * StrFlatMap::RESIZE_FACTOR
    );

    for i in 0..StrFlatMap::DEFAULT_CAPACITY {
        let key = format!("key {}", StrFlatMap::DEFAULT_CAPACITY + i);
        let value = format!("value {}", StrFlatMap::DEFAULT_CAPACITY + i);
        map.insert_with_strategy(key, value, InsertStrategy::ErrorOnDuplicate)
            .unwrap();
    }

    for i in 0..StrFlatMap::DEFAULT_CAPACITY * 2 {
        let key = format!("key {}", i);
        let value = format!("value {}", i);
        assert_eq!(*map.lookup(&key).unwrap(), value);
    }
}

#[test]
fn duplicate_key_is_refused_on_request() {
    let mut map: FlatMap<u64, u32> = FlatMap::new();
    map.insert_with_strategy(7, 1, InsertStrategy::ErrorOnDuplicate)
        .unwrap();
    let res = map.insert_with_strategy(7, 2, InsertStrategy::ErrorOnDuplicate);
    assert!(matches!(res, Err(Error::KeyAlreadyPresentInMap)));
    assert_eq!(*map.lookup(&7).unwrap(), 1);
}

#[test]
fn replace_strategy_overwrites_value() {
    let mut map: FlatMap<u64, u32> = FlatMap::new();
    map.insert(7, 1);
    map.insert_with_strategy(7, 2, InsertStrategy::Replace)
        .unwrap();
    assert_eq!(*map.lookup(&7).unwrap(), 2);
    assert_eq!(map.len(), 1);
}

#[test]
fn removing_a_missing_key_is_an_error() {
    let mut map: FlatMap<u64, u32> = FlatMap::new();
    assert!(matches!(map.remove(&3), Err(Error::KeyNotFound)));
}

#[test]
fn integer_keys_read_back_what_was_written() {
    let mut map: FlatMap<u64, u64> = FlatMap::with_capacity(4);
    for k in 0..40u64 {
        map.insert(k * 1000, k);
    }
    for k in 0..40u64 {
        assert_eq!(*map.lookup(&(k * 1000)).unwrap(), k);
    }
    assert!(map.lookup(&1).is_none());
    assert_eq!(map.len(), 40);
}

#[test]
fn load_factor_is_a_percentage() {
    let mut map: FlatMap<u64, u64> = FlatMap::with_capacity(10);
    assert_eq!(map.load_factor(), 0);
    map.insert(1, 1);
    map.insert(2, 2);
    map.insert(3, 3);
    assert_eq!(map.load_factor(), 30);
    assert_eq!(map.capacity(), 10);
}

#[test]
fn removal_lowers_len_and_load_factor() {
    let mut map: FlatMap<u64, u64> = FlatMap::with_capacity(10);
    map.insert(1, 1);
    map.insert(2, 2);
    assert!(map.remove(&1).is_ok());
    assert_eq!(map.len(), 1);
    assert_eq!(map.load_factor(), 10);
    assert!(map.remove(&2).is_ok());
    assert_eq!(map.len(), 0);
    assert_eq!(map.load_factor(), 0);
}
