use iot_structures::btree::{BinarySearchTree, IoTDevice};
use std::cell::RefCell;

fn device(id: u64, tag: &str) -> IoTDevice {
    IoTDevice::new(id, format!("address-{}", tag), format!("path-{}", tag))
}

fn ids(devices: &[IoTDevice]) -> Vec<u64> {
    devices.iter().map(|d| d.numerical_id).collect()
}

#[test]
fn walk() {
    let tree = BinarySearchTree::new_empty();
    let my_devices: RefCell<Vec<IoTDevice>> = RefCell::new(vec![]);
    tree.walk(|n| my_devices.borrow_mut().push(n.clone()));
}

#[test]
fn new_device_keeps_its_fields() {
    let d = IoTDevice::new(7, "10.0.0.7", String::from("/dev/seven"));
    assert_eq!(d.numerical_id, 7);
    assert_eq!(d.address, "10.0.0.7");
    assert_eq!(d.path, "/dev/seven");
    let copy = d.clone();
    assert_eq!(copy.numerical_id, 7);
    assert_eq!(copy.address, "10.0.0.7");
    assert_eq!(copy.path, "/dev/seven");
}

#[test]
fn empty_tree_has_nothing() {
    let tree = BinarySearchTree::new_empty();
    assert_eq!(tree.length, 0);
    assert!(tree.find(1).is_none());
    assert!(tree.devices().is_empty());
}

#[test]
fn add_counts_and_find_returns_the_device() {
    let mut tree = BinarySearchTree::new_empty();
    for id in [50u64, 20, 70, 10, 30, 60, 80] {
        tree.add(device(id, &id.to_string()));
    }
    assert_eq!(tree.length, 7);
    assert_eq!(tree.len(), 7);
    for id in [50u64, 20, 70, 10, 30, 60, 80] {
        let found = tree.find(id).unwrap();
        assert_eq!(found.numerical_id, id);
        assert_eq!(found.address, format!("address-{}", id));
        assert_eq!(found.path, format!("path-{}", id));
    }
    assert!(tree.find(55).is_none());
    assert!(tree.find(0).is_none());
    assert!(tree.find(u64::MAX).is_none());
}

#[test]
fn walk_goes_from_the_greatest_id_down() {
    let mut tree = BinarySearchTree::new_empty();
    for id in [50u64, 20, 70, 10, 30, 60, 80] {
        tree.add(device(id, "x"));
    }
    let seen: RefCell<Vec<u64>> = RefCell::new(vec![]);
    tree.walk(|n| seen.borrow_mut().push(n.numerical_id));
    assert_eq!(seen.into_inner(), vec![80, 70, 60, 50, 30, 20, 10]);
    assert_eq!(ids(&tree.devices()), vec![80, 70, 60, 50, 30, 20, 10]);
}

#[test]
fn equal_ids_are_kept_and_find_returns_the_first_added() {
    let mut tree = BinarySearchTree::new_empty();
    tree.add(device(5, "first"));
    tree.add(device(7, "seven"));
    tree.add(device(5, "second"));
    tree.add(device(3, "three"));
    tree.add(device(5, "third"));
    assert_eq!(tree.length, 5);
    assert_eq!(tree.find(5).unwrap().address, "address-first");
    let all = tree.devices();
    assert_eq!(ids(&all), vec![7, 5, 5, 5, 3]);
    let tags: Vec<String> = all.iter().map(|d| d.address.clone()).collect();
    assert_eq!(
        tags,
        vec!["address-seven", "address-third", "address-second", "address-first", "address-three"]
    );
}

#[test]
fn ids_at_the_limits() {
    let mut tree = BinarySearchTree::new_empty();
    tree.add(device(u64::MAX, "max"));
    tree.add(device(0, "zero"));
    assert_eq!(tree.find(u64::MAX).unwrap().path, "path-max");
    assert_eq!(tree.find(0).unwrap().path, "path-zero");
    assert_eq!(ids(&tree.devices()), vec![u64::MAX, 0]);
}

#[test]
fn devices_are_equal_by_id_and_address() {
    let a = IoTDevice::new(1, "addr", "path-a");
    let b = IoTDevice::new(1, "addr", "path-b");
    let c = IoTDevice::new(1, "other", "path-a");
    let d = IoTDevice::new(2, "addr", "path-a");
    assert!(a == b);
    assert!(a != c);
    assert!(a != d);
}
