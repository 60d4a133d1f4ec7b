use iot_structures::trie::{DeviceRegistry, IoTDevice};
use std::cell::RefCell;

fn device(id: u64, path: &str) -> IoTDevice {
    IoTDevice::new(id, format!("10.0.0.{}", id), path.to_string())
}

#[test]
fn trie_device_keeps_its_fields() {
    let d = IoTDevice::new(9, String::from("addr"), String::from("/a/b"));
    assert_eq!(d.numerical_id(), 9);
    assert_eq!(d.address(), "addr");
    assert_eq!(d.path(), "/a/b");
    let c = d.clone();
    assert_eq!(c.numerical_id(), 9);
    assert_eq!(c.address(), "addr");
    assert_eq!(c.path(), "/a/b");
}

#[test]
fn empty_registry_finds_nothing() {
    let mut registry = DeviceRegistry::new_empty();
    assert_eq!(registry.length, 0);
    assert!(registry.find("").is_none());
    assert!(registry.find("a").is_none());
    assert!(registry.find("abc").is_none());
}

#[test]
fn add_then_find_by_path() {
    let mut registry = DeviceRegistry::new_empty();
    registry.add(device(1, "abc"));
    registry.add(device(2, "abd"));
    registry.add(device(3, "x"));
    assert_eq!(registry.length, 3);
    assert_eq!(registry.find("abc").unwrap().numerical_id(), 1);
    assert_eq!(registry.find("abd").unwrap().numerical_id(), 2);
    assert_eq!(registry.find("x").unwrap().numerical_id(), 3);
    assert_eq!(registry.find("abc").unwrap().path(), "abc");
    assert_eq!(registry.find("abc").unwrap().address(), "10.0.0.1");
    assert_eq!(registry.length, 3);
}

#[test]
fn a_node_without_a_device_finds_nothing() {
    let mut registry = DeviceRegistry::new_empty();
    registry.add(device(1, "abc"));
    assert!(registry.find("a").is_none());
    assert!(registry.find("ab").is_none());
    assert!(registry.find("b").is_none());
    assert!(registry.find("").is_none());
    assert!(registry.find("abx").is_none());
    assert!(registry.find("axc").is_none());
}

#[test]
fn a_path_beyond_a_registered_one_finds_nothing() {
    let mut registry = DeviceRegistry::new_empty();
    registry.add(device(1, "ab"));
    assert!(registry.find("abc").is_none());
    registry.add(device(2, "abcd"));
    assert!(registry.find("abz").is_none());
    assert!(registry.find("abzzzz").is_none());
    assert!(registry.find("abc").is_none());
    assert!(registry.find("abcz").is_none());
    assert!(registry.find("abcde").is_none());
    assert_eq!(registry.find("ab").unwrap().numerical_id(), 1);
    assert_eq!(registry.find("abcd").unwrap().numerical_id(), 2);
    assert_eq!(registry.len(), 2);
}

#[test]
fn same_path_replaces_the_device_and_counts_again() {
    let mut registry = DeviceRegistry::new_empty();
    registry.add(device(1, "p/q"));
    registry.add(device(2, "p/q"));
    assert_eq!(registry.length, 2);
    assert_eq!(registry.find("p/q").unwrap().numerical_id(), 2);
    let seen: RefCell<Vec<u64>> = RefCell::new(vec![]);
    registry.walk(|d| seen.borrow_mut().push(d.numerical_id()));
    assert_eq!(seen.into_inner(), vec![2]);
}

#[test]
fn empty_path_is_not_registered() {
    let mut registry = DeviceRegistry::new_empty();
    registry.add(device(1, ""));
    assert_eq!(registry.length, 0);
    assert!(registry.find("").is_none());
    let seen: RefCell<Vec<u64>> = RefCell::new(vec![]);
    registry.walk(|d| seen.borrow_mut().push(d.numerical_id()));
    assert!(seen.into_inner().is_empty());
}

#[test]
fn trie_walk_meets_every_device_once() {
    let mut registry = DeviceRegistry::new_empty();
    for (id, path) in [(1u64, "a"), (2, "ab"), (3, "abc"), (4, "b"), (5, "ba"), (6, "c/d/e")] {
        registry.add(device(id, path));
    }
    let seen: RefCell<Vec<u64>> = RefCell::new(vec![]);
    registry.walk(|d| seen.borrow_mut().push(d.numerical_id()));
    let seen = seen.into_inner();
    let mut sorted = seen.clone();
    sorted.sort();
    assert_eq!(sorted, vec![1, 2, 3, 4, 5, 6]);
    let at = |id: u64| seen.iter().position(|x| *x == id).unwrap();
    assert!(at(3) < at(2));
    assert!(at(2) < at(1));
    assert!(at(5) < at(4));
}

#[test]
fn paths_of_many_scripts() {
    let mut registry = DeviceRegistry::new_empty();
    registry.add(device(1, "gerät/ö"));
    registry.add(device(2, "設備/一"));
    registry.add(device(3, "設備/二"));
    assert_eq!(registry.find("gerät/ö").unwrap().numerical_id(), 1);
    assert_eq!(registry.find("設備/一").unwrap().numerical_id(), 2);
    assert_eq!(registry.find("設備/二").unwrap().numerical_id(), 3);
    assert!(registry.find("設備/").is_none());
    assert!(registry.find("gerat").is_none());
}

#[test]
fn devices_lists_every_registered_device() {
    let mut registry = DeviceRegistry::new_empty();
    assert!(registry.devices().is_empty());
    for (id, path) in [(1u64, "a"), (2, "ab"), (3, "abc"), (4, "b"), (5, "ba"), (6, "c/d/e")] {
        registry.add(device(id, path));
    }
    registry.add(device(7, "ab"));
    let all = registry.devices();
    let mut ids: Vec<u64> = all.iter().map(|d| d.numerical_id()).collect();
    let at = |id: u64| ids.iter().position(|x| *x == id).unwrap();
    assert!(at(3) < at(7));
    assert!(at(7) < at(1));
    ids.sort();
    assert_eq!(ids, vec![1, 3, 4, 5, 6, 7]);
    for d in all.iter() {
        assert_eq!(registry.find(d.path()).unwrap().numerical_id(), d.numerical_id());
    }
}
