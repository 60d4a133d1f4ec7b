use iot_structures::sorting::{bubble_sort, shell_sort_ascend, shell_sort_des};

fn sorted_up(v: &[i32]) -> Vec<i32> {
    let mut s = v.to_vec();
    s.sort();
    s
}

fn sorted_down(v: &[i32]) -> Vec<i32> {
    let mut s = sorted_up(v);
    s.reverse();
    s
}

fn samples() -> Vec<Vec<i32>> {
    let mut all = vec![
        vec![],
        vec![7],
        vec![2, 1],
        vec![1, 2],
        vec![3, 3, 3],
        vec![5, 2, 100, 5, 2],
        vec![0, 0, 11, 2, 3, 10],
        vec![i32::MAX, i32::MIN, 0, -1, 1],
        (0..40).collect(),
        (0..40).rev().collect(),
    ];
    let mut x: i64 = 12345;
    let mut noise = vec![];
    for _ in 0..97 {
        x = (x * 1103515245 + 12345) % 2147483648;
        noise.push((x % 201) as i32 - 100);
    }
    all.push(noise);
    all
}

#[test]
fn bubble_sort_of_the_demo_arrays() {
    assert_eq!(bubble_sort(&[5, 2, 100, 5, 2]), vec![2, 2, 5, 5, 100]);
    assert_eq!(bubble_sort(&[0, 0, 11, 2, 3, 10]), vec![0, 0, 2, 3, 10, 11]);
}

#[test]
fn shell_sort_of_the_demo_arrays() {
    assert_eq!(
        shell_sort_ascend(&[1, 222, 903, 35, 5, 1, 288, 2, 0, 1, 7675, 3]),
        vec![0, 1, 1, 1, 2, 3, 5, 35, 222, 288, 903, 7675]
    );
    assert_eq!(
        shell_sort_des(&[9, 651, 1, 88, 32, 654, 8, 77, 9, 1, 100, 2]),
        vec![654, 651, 100, 88, 77, 32, 9, 9, 8, 2, 1, 1]
    );
}

#[test]
fn bubble_sort_sorts_and_keeps_the_items() {
    for v in samples() {
        assert_eq!(bubble_sort(&v), sorted_up(&v));
    }
}

#[test]
fn shell_sort_ascend_sorts_and_keeps_the_items() {
    for v in samples() {
        assert_eq!(shell_sort_ascend(&v), sorted_up(&v));
    }
}

#[test]
fn shell_sort_des_sorts_and_keeps_the_items() {
    for v in samples() {
        assert_eq!(shell_sort_des(&v), sorted_down(&v));
    }
}

#[test]
fn sorts_leave_their_input_alone() {
    let v = vec![3, 1, 2];
    let _ = bubble_sort(&v);
    let _ = shell_sort_ascend(&v);
    let _ = shell_sort_des(&v);
    assert_eq!(v, vec![3, 1, 2]);
}
