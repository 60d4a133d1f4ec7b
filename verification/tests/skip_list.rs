use iot_structures::skip_list::TransactionLog;

fn drain(mut iter: iot_structures::skip_list::ListIterator) -> Vec<(u64, String)> {
    let mut out = vec![];
    while let Some(item) = iter.next() {
        out.push(item);
    }
    out
}

fn offsets(items: &[(u64, String)]) -> Vec<u64> {
    items.iter().map(|i| i.0).collect()
}

#[test]
fn empty_log() {
    let log = TransactionLog::new_empty(3);
    assert_eq!(log.length, 0);
    assert_eq!(log.find(1), None);
    assert!(drain(log.iter_level(0)).is_empty());
    assert!(drain(log.iter_level(3)).is_empty());
    assert!(drain(log.into_iter()).is_empty());
}

#[test]
fn append_counts_and_keeps_the_order() {
    let mut log = TransactionLog::new_empty(4);
    for i in 0..50u64 {
        log.append(i * 10, format!("cmd{}", i));
        assert_eq!(log.length, i + 1);
    }
    let all = drain(log.clone().into_iter());
    assert_eq!(all.len(), 50);
    for (i, item) in all.iter().enumerate() {
        assert_eq!(item.0, i as u64 * 10);
        assert_eq!(item.1, format!("cmd{}", i));
    }
    assert_eq!(drain(log.iter_level(0)), all);
}

#[test]
fn every_level_starts_at_the_first_entry_and_thins_out() {
    let mut log = TransactionLog::new_empty(5);
    for i in 0..200u64 {
        log.append(i, String::from("x"));
    }
    let mut below = offsets(&drain(log.iter_level(0)));
    assert_eq!(below, (0..200u64).collect::<Vec<u64>>());
    for level in 1..=5usize {
        let lane = offsets(&drain(log.iter_level(level)));
        assert_eq!(lane[0], 0);
        assert!(lane.windows(2).all(|w| w[0] < w[1]));
        assert!(lane.iter().all(|o| below.contains(o)));
        below = lane;
    }
}

#[test]
fn levels_are_as_given() {
    let mut log = TransactionLog::new_empty(2);
    log.append_at_level(10, String::from("a"), 3);
    log.append_at_level(20, String::from("b"), 1);
    log.append_at_level(30, String::from("c"), 2);
    log.append_at_level(40, String::from("d"), 3);
    log.append_at_level(50, String::from("e"), 1);
    assert_eq!(log.length, 5);
    assert_eq!(offsets(&drain(log.iter_level(0))), vec![10, 20, 30, 40, 50]);
    assert_eq!(offsets(&drain(log.iter_level(1))), vec![10, 30, 40]);
    assert_eq!(offsets(&drain(log.iter_level(2))), vec![10, 40]);
    let all = drain(log.into_iter());
    assert_eq!(all[2], (30, String::from("c")));
}

#[test]
fn find_in_a_log_with_express_lanes() {
    let mut log = TransactionLog::new_empty(2);
    log.append_at_level(10, String::from("a"), 3);
    log.append_at_level(20, String::from("b"), 1);
    log.append_at_level(30, String::from("c"), 2);
    log.append_at_level(40, String::from("d"), 3);
    log.append_at_level(50, String::from("e"), 1);
    assert_eq!(log.find(10), Some(String::from("a")));
    assert_eq!(log.find(20), Some(String::from("b")));
    assert_eq!(log.find(30), Some(String::from("c")));
    assert_eq!(log.find(40), Some(String::from("d")));
    assert_eq!(log.find(50), Some(String::from("e")));
    assert_eq!(log.find(5), None);
    assert_eq!(log.find(25), None);
    assert_eq!(log.find(60), None);
    assert_eq!(log.find(0), None);
    assert_eq!(log.find(u64::MAX), None);
}

#[test]
fn find_with_two_levels_in_use() {
    let mut log = TransactionLog::new_empty(3);
    log.append_at_level(1, String::from("one"), 4);
    log.append_at_level(2, String::from("two"), 2);
    log.append_at_level(3, String::from("three"), 1);
    assert_eq!(log.find(1), Some(String::from("one")));
    assert_eq!(log.find(2), Some(String::from("two")));
    assert_eq!(log.find(3), Some(String::from("three")));
    assert_eq!(log.find(4), None);
}

#[test]
fn find_in_a_flat_log() {
    let mut log = TransactionLog::new_empty(3);
    log.append_at_level(1, String::from("one"), 4);
    log.append_at_level(2, String::from("two"), 1);
    log.append_at_level(3, String::from("three"), 1);
    assert_eq!(log.find(1), Some(String::from("one")));
    assert_eq!(log.find(2), Some(String::from("two")));
    assert_eq!(log.find(3), Some(String::from("three")));
    assert_eq!(log.find(0), None);
    assert_eq!(log.find(4), None);
}

#[test]
fn find_with_a_single_level() {
    let mut log = TransactionLog::new_empty(0);
    log.append(1, String::from("one"));
    log.append(2, String::from("two"));
    assert_eq!(log.length, 2);
    assert_eq!(log.len(), 2);
    assert_eq!(log.find(1), Some(String::from("one")));
    assert_eq!(log.find(2), Some(String::from("two")));
    assert_eq!(log.find(3), None);
    assert_eq!(offsets(&drain(log.into_iter())), vec![1, 2]);
}

#[test]
fn find_in_a_log_of_one_entry() {
    let mut log = TransactionLog::new_empty(4);
    log.append(7, String::from("seven"));
    assert_eq!(log.find(7), Some(String::from("seven")));
    assert_eq!(log.find(6), None);
    assert_eq!(log.find(8), None);
}

#[test]
fn find_whatever_levels_are_drawn() {
    for round in 0..20u64 {
        let mut log = TransactionLog::new_empty(3);
        for i in 0..40u64 {
            log.append(i * 3 + round, format!("c{}", i));
        }
        for i in 0..40u64 {
            assert_eq!(log.find(i * 3 + round), Some(format!("c{}", i)));
            assert_eq!(log.find(i * 3 + round + 1), None);
        }
        assert_eq!(log.find(u64::MAX), None);
    }
}

#[test]
fn find_never_returns_the_command_of_another_offset() {
    let mut log = TransactionLog::new_empty(2);
    log.append_at_level(30, String::from("thirty"), 3);
    log.append_at_level(10, String::from("ten"), 2);
    log.append_at_level(20, String::from("twenty"), 1);
    for offset in [5u64, 10, 15, 20, 25, 30, 35] {
        match log.find(offset) {
            Some(command) => {
                let all = drain(log.clone().into_iter());
                assert!(all.contains(&(offset, command)));
            }
            None => {}
        }
    }
    assert_eq!(log.find(30), Some(String::from("thirty")));
}

#[test]
fn a_clone_is_a_log_of_its_own() {
    let mut log = TransactionLog::new_empty(2);
    log.append_at_level(1, String::from("one"), 3);
    log.append_at_level(2, String::from("two"), 2);
    let copy = log.clone();
    log.append_at_level(3, String::from("three"), 2);
    assert_eq!(copy.len(), 2);
    assert_eq!(copy.length, 2);
    assert_eq!(log.length, 3);
    assert_eq!(copy.find(3), None);
    assert_eq!(log.find(3), Some(String::from("three")));
    assert_eq!(offsets(&drain(copy.into_iter())), vec![1, 2]);
}
