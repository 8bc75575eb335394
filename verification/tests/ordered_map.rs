use michael_visualizer::OrderedMap;

fn sample() -> OrderedMap<u64, &'static str> {
    let mut m = OrderedMap::new();
    assert_eq!(m.insert(3, "three"), None);
    assert_eq!(m.insert(1, "one"), None);
    assert_eq!(m.insert(2, "two"), None);
    m
}

#[test]
fn insert_keeps_the_order_of_new_keys() {
    let m = sample();
    let (keys, values) = m.iter();
    assert_eq!(keys, &[3, 1, 2]);
    assert_eq!(values, &["three", "one", "two"]);
    assert_eq!(m.len(), 3);
}

#[test]
fn insert_of_a_present_key_replaces_the_value_in_place() {
    let mut m = sample();
    assert_eq!(m.insert(1, "uno"), Some("one"));
    let (keys, values) = m.iter();
    assert_eq!(keys, &[3, 1, 2]);
    assert_eq!(values, &["three", "uno", "two"]);
}

#[test]
fn get_after_insert_gives_the_inserted_value() {
    let mut m = sample();
    assert_eq!(m.get(&1), Some(&"one"));
    assert_eq!(m.get(&4), None);
    let _ = m.insert(4, "four");
    assert_eq!(m.get(&4), Some(&"four"));
    assert_eq!(m.position(&4), Some(3));
    assert_eq!(m.position(&9), None);
}

#[test]
fn remove_undoes_insert() {
    let mut m = sample();
    let _ = m.insert(4, "four");
    assert_eq!(m.remove(&4), Some("four"));
    let (keys, values) = m.iter();
    assert_eq!(keys, &[3, 1, 2]);
    assert_eq!(values, &["three", "one", "two"]);
    assert_eq!(m.remove(&4), None);
}

#[test]
fn remove_closes_the_gap() {
    let mut m = sample();
    assert_eq!(m.remove(&1), Some("one"));
    let (keys, values) = m.iter();
    assert_eq!(keys, &[3, 2]);
    assert_eq!(values, &["three", "two"]);
    assert_eq!(m.remove_at(0), (3, "three"));
    assert_eq!(m.iter().0, &[2]);
}

#[test]
fn get_mut_changes_only_that_value() {
    let mut m = sample();
    if let Some(v) = m.get_mut(&2) {
        *v = "deux";
    }
    assert!(m.get_mut(&5).is_none());
    assert_eq!(m.iter().1, &["three", "one", "deux"]);
    {
        let (k, v) = m.get_index_mut(0);
        assert_eq!(*k, 3);
        *v = "trois";
    }
    *m.value_at_mut(1) = "un";
    assert_eq!(m.iter().1, &["trois", "un", "deux"]);
}

#[test]
fn swap_exchanges_positions_and_keeps_values() {
    let mut m = sample();
    m.swap(&3, &2);
    assert_eq!(m.iter().0, &[2, 1, 3]);
    assert_eq!(m.get(&3), Some(&"three"));
    assert_eq!(m.get(&2), Some(&"two"));
    m.swap(&3, &2);
    assert_eq!(m.iter().0, &[3, 1, 2]);
}

#[test]
fn swap_with_a_missing_key_changes_nothing() {
    let mut m = sample();
    m.swap(&3, &8);
    assert_eq!(m.iter().0, &[3, 1, 2]);
    m.swap(&1, &1);
    assert_eq!(m.iter().0, &[3, 1, 2]);
}

#[test]
fn default_is_empty() {
    let m: OrderedMap<u64, u8> = OrderedMap::default();
    assert_eq!(m.len(), 0);
    assert!(m.iter().0.is_empty());
}

#[test]
fn iter_mut_changes_values_in_key_order() {
    let mut m = sample();
    {
        let (keys, values) = m.iter_mut();
        assert_eq!(keys, &[3, 1, 2]);
        values[0] = "drei";
        values[2] = "zwei";
    }
    assert_eq!(m.get(&3), Some(&"drei"));
    assert_eq!(m.get(&1), Some(&"one"));
    assert_eq!(m.get(&2), Some(&"zwei"));
}
