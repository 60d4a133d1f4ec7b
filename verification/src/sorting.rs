//! Two comparison sorts on 32-bit integers: bubble sort, and shell sort
//! in both directions. Each returns a sorted copy and leaves its input
//! as it is.

use vstd::prelude::*;

verus! {

broadcast use vstd::seq_lib::group_to_multiset_ensures;

/// No item is greater than a later one.
pub open spec fn ascending(s: Seq<i32>) -> bool {
    forall|i: int, j: int| 0 <= i <= j < s.len() ==> s[i] <= s[j]
}

/// No item is smaller than a later one.
pub open spec fn descending(s: Seq<i32>) -> bool {
    forall|i: int, j: int| 0 <= i <= j < s.len() ==> s[i] >= s[j]
}

/// The last `p` items are in ascending order, and none before them is
/// greater than any of them.
spec fn settled_tail(s: Seq<i32>, p: int) -> bool {
    &&& forall|a: int, b: int| s.len() - p <= a <= b < s.len() && 0 <= a ==> s[a] <= s[b]
    &&& forall|a: int, b: int| 0 <= a < s.len() - p <= b < s.len() ==> s[a] <= s[b]
}

/// Two writes at different places can be made in either order with either
/// value, and the same items result.
proof fn lemma_two_updates(s: Seq<i32>, a: int, b: int, x: i32, y: i32)
    requires
        0 <= a < s.len(),
        0 <= b < s.len(),
        a != b,
    ensures
        s.update(a, x).update(b, y).to_multiset() == s.update(a, y).update(b, x).to_multiset(),
{
    let first = s.update(a, x);
    let second = s.update(a, y);
    assert(first.to_multiset() == s.to_multiset().insert(x).remove(s[a]));
    assert(first.update(b, y).to_multiset() == first.to_multiset().insert(y).remove(first[b]));
    assert(second.to_multiset() == s.to_multiset().insert(y).remove(s[a]));
    assert(second.update(b, x).to_multiset() == second.to_multiset().insert(x).remove(second[b]));
    assert(first.update(b, y).to_multiset() =~= second.update(b, x).to_multiset());
}

/// Where each item is at most the next, the whole is ascending.
proof fn lemma_neighbours_ascending(s: Seq<i32>, i: int, j: int)
    requires
        forall|a: int| 0 < a < s.len() ==> s[a - 1] <= #[trigger] s[a],
        0 <= i <= j < s.len(),
    ensures
        s[i] <= s[j],
    decreases j - i,
{
    if i < j {
        lemma_neighbours_ascending(s, i, j - 1);
    }
}

/// A copy of `collection` in a vector.
fn copied(collection: &[i32]) -> (result: Vec<i32>)
    ensures
        result@ == collection@,
{
    let mut result: Vec<i32> = Vec::new();
    let mut i: usize = 0;
    while i < collection.len()
        invariant
            i <= collection@.len(),
            result@ == collection@.take(i as int),
        decreases collection@.len() - i,
    {
        result.push(collection[i]);
        proof {
            assert(collection@.take(i + 1) =~= collection@.take(i as int).push(collection@[i as int]));
        }
        i += 1;
    }
    proof {
        assert(collection@.take(i as int) =~= collection@);
    }
    result
}

/// The items of `collection` in ascending order. Neighbours out of order
/// are exchanged, pass after pass, until a pass exchanges none.
pub fn bubble_sort(collection: &[i32]) -> (result: Vec<i32>)
    ensures
        ascending(result@),
        result@.to_multiset() == collection@.to_multiset(),
{
    let mut result = copied(collection);
    let n = result.len();
    let mut pass: usize = 0;
    while pass < n
        invariant_except_break
            pass <= n,
            settled_tail(result@, pass as int),
        invariant
            result@.len() == n,
            result@.to_multiset() == collection@.to_multiset(),
        ensures
            ascending(result@),
        decreases n - pass,
    {
        let mut swaps: usize = 0;
        let mut i: usize = 1;
        while i < n
            invariant
                1 <= i,
                n >= 1 ==> i <= n,
                pass < n,
                swaps < i,
                result@.len() == n,
                result@.to_multiset() == collection@.to_multiset(),
                settled_tail(result@, pass as int),
                forall|a: int| 0 <= a < i && a < n ==> #[trigger] result@[a] <= result@[i - 1],
                i >= n - pass ==> settled_tail(result@, pass + 1),
                swaps == 0 ==> forall|a: int| 0 < a < i ==> result@[a - 1] <= #[trigger] result@[a],
            decreases n - i,
        {
            if result[i - 1] > result[i] {
                let low = result[i];
                let high = result[i - 1];
                proof {
                    lemma_two_updates(result@, i - 1, i as int, high, low);
                    assert(result@.update(i - 1, high).update(i as int, low) =~= result@);
                }
                result.set(i - 1, low);
                result.set(i, high);
                swaps += 1;
            }
            i += 1;
        }
        if swaps == 0 {
            proof {
                assert forall|a: int, b: int| 0 <= a <= b < result@.len() implies result@[a]
                    <= result@[b] by {
                    lemma_neighbours_ascending(result@, a, b);
                }
            }
            break ;
        }
        pass += 1;
    }
    result
}

/// The items of `collections` in ascending order. Items a gap apart are
/// sorted by insertion, with the gap halved from half the length down to 1.
pub fn shell_sort_ascend(collections: &[i32]) -> (result: Vec<i32>)
    ensures
        ascending(result@),
        result@.to_multiset() == collections@.to_multiset(),
{
    let n = collections.len();
    let mut gap = n / 2;
    let mut result = copied(collections);
    while gap > 0
        invariant
            result@.len() == n,
            result@.to_multiset() == collections@.to_multiset(),
            gap <= n,
            gap == 0 ==> ascending(result@),
        decreases gap,
    {
        let mut i = gap;
        while i < n
            invariant
                0 < gap <= i,
                i <= n || gap > n,
                result@.len() == n,
                result@.to_multiset() == collections@.to_multiset(),
                gap == 1 ==> ascending(result@.take(i as int)),
            decreases n - i,
        {
            let temp = result[i];
            let mut j = i;
            let ghost start = result@;
            proof {
                assert(result@.update(j as int, temp) =~= result@);
            }
            while j >= gap && result[j - gap] > temp
                invariant
                    0 < gap,
                    j <= i < n,
                    result@.len() == n,
                    result@.update(j as int, temp).to_multiset() == collections@.to_multiset(),
                    gap == 1 ==> {
                        &&& forall|a: int| 0 <= a < j ==> result@[a] == start[a]
                        &&& forall|a: int| j < a <= i ==> result@[a] == start[a - 1]
                        &&& forall|a: int| j < a <= i ==> temp < result@[a]
                        &&& ascending(start.take(i as int))
                    },
                decreases j,
            {
                let moved = result[j - gap];
                proof {
                    lemma_two_updates(result@, j as int, j - gap, moved, temp);
                    assert(result@.update(j as int, temp).update(j - gap, moved) =~= result@.update(
                        j as int,
                        temp,
                    ));
                }
                result.set(j, moved);
                j -= gap;
            }
            result.set(j, temp);
            proof {
                if gap == 1 {
                    let done = result@.take(i + 1);
                    let before = start.take(i as int);
                    assert forall|a: int, b: int| 0 <= a <= b < done.len() implies done[a]
                        <= done[b] by {
                        if a < j {
                            assert(done[a] == before[a]);
                        } else if a > j {
                            assert(done[a] == before[a - 1]);
                        }
                        if b < j {
                            assert(done[b] == before[b]);
                        } else if b > j {
                            assert(done[b] == before[b - 1]);
                        }
                        if a < j && b == j {
                            assert(before[a] <= before[j - 1]);
                        }
                    }
                }
            }
            i += 1;
        }
        proof {
            if gap == 1 {
                assert(result@.take(i as int) =~= result@);
            }
        }
        gap /= 2;
    }
    result
}

/// The items of `collections` in descending order. Items a gap apart are
/// sorted by insertion, with the gap halved from half the length down to 1.
pub fn shell_sort_des(collections: &[i32]) -> (result: Vec<i32>)
    ensures
        descending(result@),
        result@.to_multiset() == collections@.to_multiset(),
{
    let n = collections.len();
    let mut gap = n / 2;
    let mut result = copied(collections);
    while gap > 0
        invariant
            result@.len() == n,
            result@.to_multiset() == collections@.to_multiset(),
            gap <= n,
            gap == 0 ==> descending(result@),
        decreases gap,
    {
        let mut i = gap;
        while i < n
            invariant
                0 < gap <= i,
                i <= n || gap > n,
                result@.len() == n,
                result@.to_multiset() == collections@.to_multiset(),
                gap == 1 ==> descending(result@.take(i as int)),
            decreases n - i,
        {
            let tmp = result[i];
            let mut j = i;
            let ghost start = result@;
            proof {
                assert(result@.update(j as int, tmp) =~= result@);
            }
            while j >= gap && result[j - gap] < tmp
                invariant
                    0 < gap,
                    j <= i < n,
                    result@.len() == n,
                    result@.update(j as int, tmp).to_multiset() == collections@.to_multiset(),
                    gap == 1 ==> {
                        &&& forall|a: int| 0 <= a < j ==> result@[a] == start[a]
                        &&& forall|a: int| j < a <= i ==> result@[a] == start[a - 1]
                        &&& forall|a: int| j < a <= i ==> tmp > result@[a]
                        &&& descending(start.take(i as int))
                    },
                decreases j,
            {
                let moved = result[j - gap];
                proof {
                    lemma_two_updates(result@, j as int, j - gap, moved, tmp);
                    assert(result@.update(j as int, tmp).update(j - gap, moved) =~= result@.update(
                        j as int,
                        tmp,
                    ));
                }
                result.set(j, moved);
                j -= gap;
            }
            result.set(j, tmp);
            proof {
                if gap == 1 {
                    let done = result@.take(i + 1);
                    let before = start.take(i as int);
                    assert forall|a: int, b: int| 0 <= a <= b < done.len() implies done[a]
                        >= done[b] by {
                        if a < j {
                            assert(done[a] == before[a]);
                        } else if a > j {
                            assert(done[a] == before[a - 1]);
                        }
                        if b < j {
                            assert(done[b] == before[b]);
                        } else if b > j {
                            assert(done[b] == before[b - 1]);
                        }
                        if a < j && b == j {
                            assert(before[a] >= before[j - 1]);
                        }
                    }
                }
            }
            i += 1;
        }
        proof {
            if gap == 1 {
                assert(result@.take(i as int) =~= result@);
            }
        }
        gap /= 2;
    }
    result
}

} // verus!
