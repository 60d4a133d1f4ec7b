//! A queue of message notifications that hands out a notification with the
//! most messages first: a binary max-heap in a vector, with the positions
//! counted from 1, so that the parent of position `p` is position `p / 2`.

use vstd::prelude::*;

verus! {

broadcast use vstd::seq_lib::group_to_multiset_ensures;

#[derive(Debug)]
pub struct IoTDevice {
    numerical_id: u64,
    address: String,
    path: String,
}

/// A device as plain values.
pub struct DeviceView {
    pub numerical_id: u64,
    pub address: Seq<char>,
    pub path: Seq<char>,
}

impl View for IoTDevice {
    type V = DeviceView;

    closed spec fn view(&self) -> DeviceView {
        DeviceView { numerical_id: self.numerical_id, address: self.address@, path: self.path@ }
    }
}

impl Clone for IoTDevice {
    fn clone(&self) -> (copy: Self)
        ensures
            copy == *self,
    {
        IoTDevice {
            numerical_id: self.numerical_id,
            address: self.address.clone(),
            path: self.path.clone(),
        }
    }
}

impl IoTDevice {
    pub fn new(numerical_id: u64, address: String, path: String) -> (dev: IoTDevice)
        ensures
            dev@ == (DeviceView { numerical_id, address: address@, path: path@ }),
    {
        IoTDevice { numerical_id, address, path }
    }

    pub fn numerical_id(&self) -> (id: u64)
        ensures
            id == self@.numerical_id,
    {
        self.numerical_id
    }

    pub fn address(&self) -> (address: &String)
        ensures
            address@ == self@.address,
    {
        &self.address
    }

    pub fn path(&self) -> (path: &String)
        ensures
            path@ == self@.path,
    {
        &self.path
    }
}

#[derive(Debug)]
pub struct MessageNotification {
    pub no_messages: u64,
    pub dev: IoTDevice,
}

impl Clone for MessageNotification {
    fn clone(&self) -> (copy: Self)
        ensures
            copy == *self,
    {
        MessageNotification { no_messages: self.no_messages, dev: self.dev.clone() }
    }
}

impl MessageNotification {
    pub fn new(no_messages: u64, dev: IoTDevice) -> (notification: MessageNotification)
        ensures
            notification.no_messages == no_messages,
            notification.dev == dev,
    {
        MessageNotification { no_messages, dev }
    }
}

/// Every position but the first holds no more messages than its parent.
pub open spec fn is_heap(s: Seq<MessageNotification>) -> bool {
    forall|p: int| 2 <= p <= s.len() ==> s[p / 2 - 1].no_messages >= (#[trigger] s[p - 1]).no_messages
}

/// The heap order holds but perhaps between position `i` and its parent;
/// the children of `i` hold no more than the parent of `i`.
#[verifier::opaque]
spec fn heap_but_above(s: Seq<MessageNotification>, i: int) -> bool {
    &&& forall|p: int|
        2 <= p <= s.len() && p != i ==> s[p / 2 - 1].no_messages >= (#[trigger] s[p
            - 1]).no_messages
    &&& forall|c: int|
        2 <= i && 2 <= c <= s.len() && c / 2 == i ==> s[i / 2 - 1].no_messages >= (#[trigger] s[c
            - 1]).no_messages
}

/// The heap order holds but perhaps between position `i` and its children;
/// the children of `i` hold no more than the parent of `i`.
#[verifier::opaque]
spec fn heap_but_below(s: Seq<MessageNotification>, i: int) -> bool {
    &&& forall|p: int|
        2 <= p <= s.len() && p / 2 != i ==> s[p / 2 - 1].no_messages >= (#[trigger] s[p
            - 1]).no_messages
    &&& forall|c: int|
        2 <= i && 2 <= c <= s.len() && c / 2 == i ==> s[i / 2 - 1].no_messages >= (#[trigger] s[c
            - 1]).no_messages
}

/// `s` with the items at the positions `a` and `b` exchanged.
pub open spec fn exchanged(s: Seq<MessageNotification>, a: int, b: int) -> Seq<
    MessageNotification,
> {
    s.update(a - 1, s[b - 1]).update(b - 1, s[a - 1])
}

/// `s` after the item at position `i` has gone up: it changes places with
/// its parent for as long as it holds at least as many messages.
#[verifier::opaque]
pub open spec fn sifted_up(s: Seq<MessageNotification>, i: int) -> Seq<MessageNotification>
    decreases i,
{
    if 2 <= i <= s.len() && s[i - 1].no_messages >= s[i / 2 - 1].no_messages {
        sifted_up(exchanged(s, i, i / 2), i / 2)
    } else {
        s
    }
}

/// The child of position `i` that holds more messages; the left one where
/// both hold the same number, or where it is the only one.
pub open spec fn greater_child(s: Seq<MessageNotification>, i: int) -> int {
    if 2 * i < s.len() && s[2 * i - 1].no_messages < s[2 * i].no_messages {
        2 * i + 1
    } else {
        2 * i
    }
}

/// `s` after the item at position `i` has gone down: it changes places
/// with the greater of its children for as long as that child holds at
/// least as many messages.
#[verifier::opaque]
pub open spec fn sifted_down(s: Seq<MessageNotification>, i: int) -> Seq<MessageNotification>
    decreases s.len() - i,
{
    if 1 <= i && 2 * i <= s.len() && s[greater_child(s, i) - 1].no_messages >= s[i
        - 1].no_messages {
        sifted_down(exchanged(s, i, greater_child(s, i)), greater_child(s, i))
    } else {
        s
    }
}

/// One step of the way up.
proof fn lemma_sifted_up_step(s: Seq<MessageNotification>, i: int)
    ensures
        sifted_up(s, i) == if 2 <= i <= s.len() && s[i - 1].no_messages >= s[i / 2
            - 1].no_messages {
            sifted_up(exchanged(s, i, i / 2), i / 2)
        } else {
            s
        },
{
    reveal(sifted_up);
}

/// One step of the way down.
proof fn lemma_sifted_down_step(s: Seq<MessageNotification>, i: int)
    ensures
        sifted_down(s, i) == if 1 <= i && 2 * i <= s.len() && s[greater_child(s, i)
            - 1].no_messages >= s[i - 1].no_messages {
            sifted_down(exchanged(s, i, greater_child(s, i)), greater_child(s, i))
        } else {
            s
        },
{
    reveal(sifted_down);
}

/// In a heap the first position holds the most messages.
pub proof fn lemma_heap_first_is_most(s: Seq<MessageNotification>, p: int)
    requires
        is_heap(s),
        1 <= p <= s.len(),
    ensures
        s[0].no_messages >= s[p - 1].no_messages,
    decreases p,
{
    if p >= 2 {
        lemma_heap_first_is_most(s, p / 2);
    }
}

/// Exchanging two items keeps what is in the sequence.
proof fn lemma_exchanged_same_items(s: Seq<MessageNotification>, a: int, b: int)
    requires
        1 <= a <= s.len(),
        1 <= b <= s.len(),
    ensures
        exchanged(s, a, b).to_multiset() == s.to_multiset(),
        exchanged(s, a, b).len() == s.len(),
{
    let once = s.update(a - 1, s[b - 1]);
    assert(once.to_multiset() == s.to_multiset().insert(s[b - 1]).remove(s[a - 1]));
    assert(once.update(b - 1, s[a - 1]).to_multiset() == once.to_multiset().insert(
        s[a - 1],
    ).remove(once[b - 1]));
    assert(exchanged(s, a, b).to_multiset() =~= s.to_multiset());
}

pub struct MessageChecker {
    pub length: usize,
    heap: Vec<Box<MessageNotification>>,
}

impl View for MessageChecker {
    type V = Seq<MessageNotification>;

    /// The notifications in the order of their positions.
    closed spec fn view(&self) -> Seq<MessageNotification> {
        Seq::new(self.heap@.len(), |i: int| *self.heap@[i])
    }
}

impl MessageChecker {
    /// `length` is the number of notifications, and they are in heap order.
    pub open spec fn well_formed(&self) -> bool {
        &&& self.count() == self@.len()
        &&& is_heap(self@)
    }

    /// The value of the field `length`.
    pub closed spec fn count(&self) -> usize {
        self.length
    }

    /// The value of the field `length`: in a well-formed queue, the number
    /// of notifications.
    pub fn len(&self) -> (n: usize)
        ensures
            n == self.count(),
    {
        self.length
    }

    pub fn new_empty() -> (queue: MessageChecker)
        ensures
            queue@.len() == 0,
            queue.count() == 0,
            queue.well_formed(),
    {
        MessageChecker { length: 0, heap: Vec::new() }
    }

    /// Puts `notification` into the queue: at the end, and from there up
    /// for as long as it holds at least as many messages as its parent.
    pub fn add(&mut self, notification: MessageNotification)
        requires
            old(self).well_formed(),
        ensures
            final(self).well_formed(),
            final(self)@ == sifted_up(
                old(self)@.push(notification),
                old(self)@.len() as int + 1,
            ),
            final(self)@.to_multiset() == old(self)@.to_multiset().insert(notification),
            final(self).count() == old(self).count() + 1,
    {
        let ghost before = self@;
        let ghost pushed = before.push(notification);
        self.heap.push(Box::new(notification));
        self.length = self.heap.len();
        proof {
            assert(self@ =~= pushed);
        }
        let ghost goal = sifted_up(pushed, pushed.len() as int);
        proof {
            lemma_sifted_up_step(pushed, pushed.len() as int);
            lemma_pushed_heap(before, notification);
        }
        if self.length > 1 {
            let mut i = self.length;
            while i / 2 > 0 && self.has_more_messages(i, i / 2)
                invariant
                    1 <= i <= self.length,
                    self.length == self@.len(),
                    self.length == before.len() + 1,
                    sifted_up(self@, i as int) == goal,
                    self@.to_multiset() == before.to_multiset().insert(notification),
                    heap_but_above(self@, i as int),
                decreases i,
            {
                let ghost s = self@;
                self.swap(i, i / 2);
                proof {
                    lemma_exchanged_same_items(s, i as int, (i / 2) as int);
                    lemma_sift_up_step(s, i as int);
                    lemma_sifted_up_step(s, i as int);
                }
                i /= 2;
            }
            proof {
                lemma_sifted_up_step(self@, i as int);
                lemma_settled_above(self@, i as int);
            }
        }
    }

    /// Takes a notification with the most messages out of the queue, or
    /// returns `None` where the queue is empty. The last notification
    /// takes the first position, and from there goes down below the
    /// greater of its children for as long as that child holds at least
    /// as many messages.
    pub fn pop(&mut self) -> (r: Option<MessageNotification>)
        requires
            old(self).well_formed(),
        ensures
            final(self).well_formed(),
            match r {
                Some(top) => {
                    &&& old(self)@.len() > 0
                    &&& top == old(self)@[0]
                    &&& forall|i: int|
                        0 <= i < old(self)@.len() ==> top.no_messages >= (#[trigger] old(
                            self,
                        )@[i]).no_messages
                    &&& final(self)@ == sifted_down(
                        old(self)@.update(0, old(self)@.last()).drop_last(),
                        1,
                    )
                    &&& final(self)@.to_multiset() == old(self)@.to_multiset().remove(top)
                    &&& final(self).count() == old(self).count() - 1
                },
                None => old(self)@.len() == 0 && final(self)@ == old(self)@,
            },
    {
        let ghost before = self@;
        if self.length > 0 {
            let elem = self.heap.swap_remove(0);
            self.length = self.heap.len();
            proof {
                assert forall|i: int| 0 <= i < before.len() implies elem.no_messages >= (
                #[trigger] before[i]).no_messages by {
                    lemma_heap_first_is_most(before, i + 1);
                }
                let moved = before.update(0, before.last()).drop_last();
                assert(self@ =~= moved);
                assert(moved.to_multiset() =~= before.to_multiset().remove(*elem)) by {
                    if before.len() > 1 {
                        assert(before.update(0, before.last()).remove(before.len() - 1) =~= moved);
                        assert(before.update(0, before.last())[before.len() - 1] == before.last());
                    } else {
                        assert(before =~= seq![*elem]);
                        assert(moved =~= Seq::empty());
                    }
                }
                lemma_moved_heap(before);
            }
            let ghost goal = sifted_down(self@, 1);
            let mut i: usize = 1;
            loop
                invariant_except_break
                    heap_but_below(self@, i as int),
                    sifted_down(self@, i as int) == goal,
                invariant
                    1 <= i,
                    self.length == self@.len(),
                    self.length == before.len() - 1,
                    self@.to_multiset() == before.to_multiset().remove(*elem),
                ensures
                    self@ == goal,
                    is_heap(self@),
                decreases self.length - i,
            {
                let ghost s = self@;
                proof {
                    lemma_sifted_down_step(s, i as int);
                }
                if i > self.length / 2 {
                    proof {
                        lemma_settled_below(s, i as int);
                    }
                    break ;
                }
                let left = i * 2;
                let child = if left < self.length && !self.has_more_messages(left, left + 1) {
                    left + 1
                } else {
                    left
                };
                if !self.has_more_messages(child, i) {
                    proof {
                        lemma_settled_below(s, i as int);
                    }
                    break ;
                }
                self.swap(i, child);
                proof {
                    lemma_exchanged_same_items(s, i as int, child as int);
                    lemma_sift_down_step(s, i as int, child as int);
                }
                i = child;
            }
            Some(*elem)
        } else {
            None
        }
    }

    /// Whether position `pos1` holds at least as many messages as `pos2`.
    fn has_more_messages(&self, pos1: usize, pos2: usize) -> (more: bool)
        requires
            1 <= pos1 <= self@.len(),
            1 <= pos2 <= self@.len(),
        ensures
            more == (self@[pos1 - 1].no_messages >= self@[pos2 - 1].no_messages),
    {
        let a = &self.heap[pos1 - 1];
        let b = &self.heap[pos2 - 1];
        a.no_messages >= b.no_messages
    }

    /// Exchanges the notifications at the positions `pos1` and `pos2`.
    fn swap(&mut self, pos1: usize, pos2: usize)
        requires
            1 <= pos1 <= old(self)@.len(),
            1 <= pos2 <= old(self)@.len(),
        ensures
            final(self)@ == exchanged(old(self)@, pos1 as int, pos2 as int),
            final(self).length == old(self).length,
    {
        let mut m2 = Box::new((*self.heap[pos1 - 1]).clone());
        self.heap.set_and_swap(pos2 - 1, &mut m2);
        self.heap.set(pos1 - 1, m2);
        proof {
            assert(self@ =~= exchanged(old(self)@, pos1 as int, pos2 as int));
        }
    }
}

/// A heap with one more item at its end is in heap order but perhaps
/// between that item and its parent.
proof fn lemma_pushed_heap(s: Seq<MessageNotification>, added: MessageNotification)
    requires
        is_heap(s),
    ensures
        heap_but_above(s.push(added), s.len() as int + 1),
{
    reveal(heap_but_above);
    let t = s.push(added);
    assert forall|p: int| 2 <= p <= t.len() && p != s.len() + 1 implies t[p / 2 - 1].no_messages >= (
    #[trigger] t[p - 1]).no_messages by {
        assert(t[p - 1] == s[p - 1]);
        assert(t[p / 2 - 1] == s[p / 2 - 1]);
    }
}

/// An item that has no parent, or holds fewer messages than its parent,
/// has gone up far enough: the heap order holds everywhere.
proof fn lemma_settled_above(s: Seq<MessageNotification>, i: int)
    requires
        1 <= i <= s.len(),
        heap_but_above(s, i),
        i < 2 || s[i - 1].no_messages < s[i / 2 - 1].no_messages,
    ensures
        is_heap(s),
{
    reveal(heap_but_above);
}

/// A heap whose last item has taken the first position is in heap order
/// but perhaps between the first position and its children.
proof fn lemma_moved_heap(s: Seq<MessageNotification>)
    requires
        is_heap(s),
        s.len() >= 1,
    ensures
        heap_but_below(s.update(0, s.last()).drop_last(), 1),
{
    reveal(heap_but_below);
    let t = s.update(0, s.last()).drop_last();
    assert forall|p: int| 2 <= p <= t.len() && p / 2 != 1 implies t[p / 2 - 1].no_messages >= (
    #[trigger] t[p - 1]).no_messages by {
        assert(t[p - 1] == s[p - 1]);
        assert(t[p / 2 - 1] == s[p / 2 - 1]);
    }
}

/// An item that has no child, or holds more messages than the greater of
/// its children, has gone down far enough: the heap order holds
/// everywhere.
proof fn lemma_settled_below(s: Seq<MessageNotification>, i: int)
    requires
        1 <= i,
        heap_but_below(s, i),
        2 * i > s.len() || s[greater_child(s, i) - 1].no_messages < s[i - 1].no_messages,
    ensures
        is_heap(s),
{
    reveal(heap_but_below);
    assert forall|p: int| 2 <= p <= s.len() implies s[p / 2 - 1].no_messages >= (#[trigger] s[p
        - 1]).no_messages by {
        if p / 2 == i {
            assert(s[greater_child(s, i) - 1].no_messages >= s[p - 1].no_messages);
        }
    }
}

/// One step up: after position `i` and its parent are exchanged, the heap
/// order can only be broken above the parent.
proof fn lemma_sift_up_step(s: Seq<MessageNotification>, i: int)
    requires
        2 <= i <= s.len(),
        heap_but_above(s, i),
        s[i - 1].no_messages >= s[i / 2 - 1].no_messages,
    ensures
        heap_but_above(exchanged(s, i, i / 2), i / 2),
{
    reveal(heap_but_above);
    let t = exchanged(s, i, i / 2);
    let up = i / 2;
    assert forall|p: int| 2 <= p <= t.len() && p != up implies t[p / 2 - 1].no_messages >= (
    #[trigger] t[p - 1]).no_messages by {
        if p == i {
        } else if p / 2 == i {
            assert(s[i / 2 - 1].no_messages >= s[p - 1].no_messages);
        } else if p / 2 == up {
            assert(s[p / 2 - 1].no_messages >= s[p - 1].no_messages);
        } else {
            assert(s[p / 2 - 1].no_messages >= s[p - 1].no_messages);
        }
    }
    assert forall|c: int| 2 <= up && 2 <= c <= t.len() && c / 2 == up implies t[up / 2
        - 1].no_messages >= (#[trigger] t[c - 1]).no_messages by {
        assert(s[up / 2 - 1].no_messages >= s[up - 1].no_messages);
        if c != i {
            assert(s[c / 2 - 1].no_messages >= s[c - 1].no_messages);
        }
    }
}

/// One step down: after position `i` and the greater of its children are
/// exchanged, the heap order can only be broken below that child.
proof fn lemma_sift_down_step(s: Seq<MessageNotification>, i: int, child: int)
    requires
        1 <= i,
        2 <= child <= s.len(),
        child / 2 == i,
        heap_but_below(s, i),
        s[child - 1].no_messages >= s[i - 1].no_messages,
        forall|c: int|
            2 <= c <= s.len() && c / 2 == i ==> s[child - 1].no_messages >= (#[trigger] s[c
                - 1]).no_messages,
    ensures
        heap_but_below(exchanged(s, i, child), child),
{
    reveal(heap_but_below);
    let t = exchanged(s, i, child);
    assert forall|p: int| 2 <= p <= t.len() && p / 2 != child implies t[p / 2 - 1].no_messages >= (
    #[trigger] t[p - 1]).no_messages by {
        if p == child {
        } else if p / 2 == i {
            assert(s[child - 1].no_messages >= s[p - 1].no_messages);
        } else if p == i {
            assert(s[i / 2 - 1].no_messages >= s[child - 1].no_messages);
        } else {
            assert(s[p / 2 - 1].no_messages >= s[p - 1].no_messages);
        }
    }
    assert forall|c: int| 2 <= child && 2 <= c <= t.len() && c / 2 == child implies t[child / 2
        - 1].no_messages >= (#[trigger] t[c - 1]).no_messages by {
        assert(s[c / 2 - 1].no_messages >= s[c - 1].no_messages);
    }
}

} // verus!
