use iot_structures::heap_struct::{IoTDevice, MessageChecker, MessageNotification};

fn note(count: u64, id: u64) -> MessageNotification {
    MessageNotification::new(count, IoTDevice::new(id, format!("10.0.0.{}", id), format!("/dev/{}", id)))
}

fn drain(queue: &mut MessageChecker) -> Vec<(u64, u64)> {
    let mut out = vec![];
    while let Some(n) = queue.pop() {
        out.push((n.no_messages, n.dev.numerical_id()));
    }
    out
}

#[test]
fn heap_device_keeps_its_fields() {
    let d = IoTDevice::new(3, String::from("addr"), String::from("path"));
    assert_eq!(d.numerical_id(), 3);
    assert_eq!(d.address(), "addr");
    assert_eq!(d.path(), "path");
    let n = MessageNotification::new(12, d.clone());
    assert_eq!(n.no_messages, 12);
    assert_eq!(n.dev.numerical_id(), 3);
    let m = n.clone();
    assert_eq!(m.no_messages, 12);
    assert_eq!(m.dev.address(), "addr");
    assert_eq!(m.dev.path(), "path");
}

#[test]
fn empty_queue_pops_nothing() {
    let mut queue = MessageChecker::new_empty();
    assert_eq!(queue.length, 0);
    assert!(queue.pop().is_none());
    assert_eq!(queue.length, 0);
}

#[test]
fn add_counts() {
    let mut queue = MessageChecker::new_empty();
    queue.add(note(5, 1));
    assert_eq!(queue.length, 1);
    queue.add(note(9, 2));
    queue.add(note(1, 3));
    assert_eq!(queue.length, 3);
    assert_eq!(queue.len(), 3);
    let top = queue.pop().unwrap();
    assert_eq!(top.no_messages, 9);
    assert_eq!(top.dev.numerical_id(), 2);
    assert_eq!(queue.length, 2);
}

#[test]
fn pop_hands_out_the_most_messages_first() {
    let mut queue = MessageChecker::new_empty();
    for (i, count) in [3u64, 17, 4, 99, 0, 42, 8, 15, 16, 23].iter().enumerate() {
        queue.add(note(*count, i as u64));
    }
    let counts: Vec<u64> = drain(&mut queue).into_iter().map(|p| p.0).collect();
    assert_eq!(counts, vec![99, 42, 23, 17, 16, 15, 8, 4, 3, 0]);
    assert_eq!(queue.length, 0);
}

#[test]
fn pop_compares_a_last_single_child() {
    let mut queue = MessageChecker::new_empty();
    queue.add(note(9, 1));
    queue.add(note(5, 2));
    queue.add(note(1, 3));
    assert_eq!(queue.pop().unwrap().no_messages, 9);
    assert_eq!(queue.pop().unwrap().no_messages, 5);
    assert_eq!(queue.pop().unwrap().no_messages, 1);
    assert!(queue.pop().is_none());
}

#[test]
fn equal_counts_all_come_out() {
    let mut queue = MessageChecker::new_empty();
    for id in 0..6u64 {
        queue.add(note(7, id));
    }
    queue.add(note(8, 6));
    let out = drain(&mut queue);
    assert_eq!(out.len(), 7);
    assert_eq!(out[0], (8, 6));
    let mut rest: Vec<u64> = out[1..].iter().map(|p| p.1).collect();
    rest.sort();
    assert_eq!(rest, vec![0, 1, 2, 3, 4, 5]);
    assert!(out[1..].iter().all(|p| p.0 == 7));
}

#[test]
fn adds_and_pops_in_turn() {
    let mut queue = MessageChecker::new_empty();
    queue.add(note(10, 1));
    queue.add(note(30, 2));
    assert_eq!(queue.pop().unwrap().no_messages, 30);
    queue.add(note(20, 3));
    queue.add(note(u64::MAX, 4));
    queue.add(note(0, 5));
    assert_eq!(queue.pop().unwrap().no_messages, u64::MAX);
    assert_eq!(queue.pop().unwrap().no_messages, 20);
    assert_eq!(queue.pop().unwrap().no_messages, 10);
    assert_eq!(queue.pop().unwrap().no_messages, 0);
    assert!(queue.pop().is_none());
}
