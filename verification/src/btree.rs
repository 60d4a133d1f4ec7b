//! A binary search tree of devices by their numerical id. Greater and
//! equal ids go to the left, smaller ones to the right, so a walk from
//! left to right meets the ids from the greatest down. Equal ids are kept,
//! the later one before the earlier.

use vstd::prelude::*;

verus! {

#[derive(Debug)]
pub struct IoTDevice {
    pub numerical_id: u64,
    pub path: String,
    pub address: String,
}

impl Clone for IoTDevice {
    fn clone(&self) -> (copy: Self)
        ensures
            copy == *self,
    {
        IoTDevice {
            numerical_id: self.numerical_id,
            path: self.path.clone(),
            address: self.address.clone(),
        }
    }
}

impl PartialEq for IoTDevice {
    /// Two devices are the same where their ids and addresses are.
    fn eq(&self, other: &IoTDevice) -> (same: bool) {
        self.numerical_id == other.numerical_id && self.address == other.address
    }
}

impl vstd::std_specs::cmp::PartialEqSpecImpl for IoTDevice {
    open spec fn obeys_eq_spec() -> bool {
        true
    }

    open spec fn eq_spec(&self, other: &IoTDevice) -> bool {
        self.numerical_id == other.numerical_id && self.address@ == other.address@
    }
}

impl IoTDevice {
    /// A device with the id `numerical_id`, and with the address and the
    /// path that the conversion of `address` and of `path` into a `String`
    /// gives: for a string slice and for a `String`, their characters.
    pub fn new<A: Into<String>, P: Into<String>>(numerical_id: u64, address: A, path: P) -> (dev:
        IoTDevice)
        ensures
            dev.numerical_id == numerical_id,
            call_ensures(<A as Into<String>>::into, (address,), dev.address),
            call_ensures(<P as Into<String>>::into, (path,), dev.path),
    {
        IoTDevice { address: address.into(), numerical_id, path: path.into() }
    }
}

struct Node {
    pub dev: IoTDevice,
    left: Option<Box<Node>>,
    right: Option<Box<Node>>,
}

impl Node {
    fn new(device: IoTDevice) -> (tree: Option<Box<Node>>)
        ensures
            in_order(tree) == seq![device],
            ordered(tree),
    {
        let tree = Some(Box::new(Node { dev: device, left: None, right: None }));
        proof {
            reveal_with_fuel(in_order, 2);
            reveal_with_fuel(ordered, 2);
            assert(in_order(tree) =~= seq![device]);
        }
        tree
    }
}

/// The devices of a tree from left to right.
spec fn in_order(tree: Option<Box<Node>>) -> Seq<IoTDevice>
    decreases tree,
{
    match tree {
        None => Seq::empty(),
        Some(n) => in_order(n.left).push(n.dev) + in_order(n.right),
    }
}

/// At every node, the ids to the left are at least the node's id, and
/// those to the right are below it.
spec fn ordered(tree: Option<Box<Node>>) -> bool
    decreases tree,
{
    match tree {
        None => true,
        Some(n) => {
            &&& ordered(n.left)
            &&& ordered(n.right)
            &&& forall|i: int|
                0 <= i < in_order(n.left).len() ==> (#[trigger] in_order(n.left)[i]).numerical_id
                    >= n.dev.numerical_id
            &&& forall|i: int|
                0 <= i < in_order(n.right).len() ==> (#[trigger] in_order(n.right)[i]).numerical_id
                    < n.dev.numerical_id
        },
    }
}

/// `k` is where a device with the id `id` enters `s`: behind every greater
/// id, and before every other.
pub open spec fn is_entry_point(s: Seq<IoTDevice>, id: u64, k: int) -> bool {
    &&& 0 <= k <= s.len()
    &&& forall|i: int| 0 <= i < k ==> (#[trigger] s[i]).numerical_id > id
    &&& forall|i: int| k <= i < s.len() ==> (#[trigger] s[i]).numerical_id <= id
}

/// `j` is the last place in `s` that holds the id `id`.
pub open spec fn is_last_with_id(s: Seq<IoTDevice>, id: u64, j: int) -> bool {
    &&& 0 <= j < s.len()
    &&& s[j].numerical_id == id
    &&& forall|i: int| j < i < s.len() ==> (#[trigger] s[i]).numerical_id != id
}

/// The ids never grow from one place to the next.
pub open spec fn descending(s: Seq<IoTDevice>) -> bool {
    forall|i: int, j: int|
        0 <= i <= j < s.len() ==> (#[trigger] s[i]).numerical_id >= (#[trigger] s[j]).numerical_id
}

/// The devices of an ordered tree come in descending order of their ids.
proof fn lemma_ordered_descending(tree: Option<Box<Node>>)
    requires
        ordered(tree),
    ensures
        descending(in_order(tree)),
    decreases tree,
{
    match tree {
        None => {},
        Some(n) => {
            lemma_ordered_descending(n.left);
            lemma_ordered_descending(n.right);
            let l = in_order(n.left);
            let r = in_order(n.right);
            let s = in_order(tree);
            assert forall|i: int, j: int| 0 <= i <= j < s.len() implies (#[trigger] s[i]).numerical_id
                >= (#[trigger] s[j]).numerical_id by {
                if i < l.len() {
                    assert(s[i] == l[i]);
                } else if i > l.len() {
                    assert(s[i] == r[i - l.len() - 1]);
                }
                if j < l.len() {
                    assert(s[j] == l[j]);
                } else if j > l.len() {
                    assert(s[j] == r[j - l.len() - 1]);
                }
            }
        },
    }
}

pub struct BinarySearchTree {
    root: Option<Box<Node>>,
    pub length: u64,
}

impl View for BinarySearchTree {
    type V = Seq<IoTDevice>;

    /// The devices in the order in which a walk meets them.
    closed spec fn view(&self) -> Seq<IoTDevice> {
        in_order(self.root)
    }
}

impl BinarySearchTree {
    /// The tree is ordered, and `length` is the number of its devices.
    pub closed spec fn well_formed(&self) -> bool {
        &&& ordered(self.root)
        &&& self.length == in_order(self.root).len()
    }

    /// The value of the field `length`.
    pub closed spec fn count(&self) -> u64 {
        self.length
    }

    /// The value of the field `length`: in a well-formed tree, the number
    /// of devices.
    pub fn len(&self) -> (n: u64)
        ensures
            n == self.count(),
    {
        self.length
    }

    /// In a well-formed tree the devices come in descending order of
    /// their ids, and `length` is their number.
    pub proof fn lemma_well_formed(&self)
        requires
            self.well_formed(),
        ensures
            descending(self@),
            self.count() == self@.len(),
    {
        lemma_ordered_descending(self.root);
    }

    pub fn new_empty() -> (tree: BinarySearchTree)
        ensures
            tree.well_formed(),
            tree@ == Seq::<IoTDevice>::empty(),
            tree.count() == 0,
    {
        BinarySearchTree { root: None, length: 0 }
    }

    /// Adds `device`. In the order of a walk it comes behind every device
    /// with a greater id and before every other.
    pub fn add(&mut self, device: IoTDevice)
        requires
            old(self).well_formed(),
            old(self).count() < u64::MAX,
        ensures
            final(self).well_formed(),
            final(self).count() == old(self).count() + 1,
            exists|k: int|
                is_entry_point(old(self)@, device.numerical_id, k) && final(self)@ == old(
                    self,
                )@.insert(k, device),
    {
        let ghost before = self@;
        self.length += 1;
        let mut root = None;
        core::mem::swap(&mut root, &mut self.root);
        self.root = Self::add_rec(root, device);
        proof {
            let k = choose|k: int|
                is_entry_point(before, device.numerical_id, k) && in_order(self.root)
                    == before.insert(k, device);
            assert(is_entry_point(before, device.numerical_id, k) && self@ == before.insert(
                k,
                device,
            ));
        }
    }

    fn add_rec(node: Option<Box<Node>>, device: IoTDevice) -> (tree: Option<Box<Node>>)
        requires
            ordered(node),
        ensures
            ordered(tree),
            exists|k: int|
                is_entry_point(in_order(node), device.numerical_id, k) && in_order(tree)
                    == in_order(node).insert(k, device),
        decreases node,
    {
        match node {
            Some(mut n) => {
                let ghost l = in_order(n.left);
                let ghost r = in_order(n.right);
                let ghost whole = in_order(node);
                if n.dev.numerical_id <= device.numerical_id {
                    let mut left = None;
                    core::mem::swap(&mut left, &mut n.left);
                    n.left = Self::add_rec(left, device);
                    proof {
                        let k = choose|k: int|
                            is_entry_point(l, device.numerical_id, k) && in_order(n.left)
                                == l.insert(k, device);
                        assert((l.insert(k, device).push(n.dev) + r) =~= whole.insert(k, device));
                        assert(is_entry_point(whole, device.numerical_id, k)) by {
                            assert forall|i: int| k <= i < whole.len() implies (
                            #[trigger] whole[i]).numerical_id <= device.numerical_id by {
                                if i < l.len() {
                                    assert(whole[i] == l[i]);
                                } else if i > l.len() {
                                    assert(whole[i] == r[i - l.len() - 1]);
                                }
                            }
                            assert forall|i: int| 0 <= i < k implies (
                            #[trigger] whole[i]).numerical_id > device.numerical_id by {
                                assert(whole[i] == l[i]);
                            }
                        }
                        assert forall|i: int| 0 <= i < in_order(n.left).len() implies (
                        #[trigger] in_order(n.left)[i]).numerical_id >= n.dev.numerical_id by {
                            if i < k {
                                assert(in_order(n.left)[i] == l[i]);
                            } else if i > k {
                                assert(in_order(n.left)[i] == l[i - 1]);
                            }
                        }
                    }
                    Some(n)
                } else {
                    let mut right = None;
                    core::mem::swap(&mut right, &mut n.right);
                    n.right = Self::add_rec(right, device);
                    proof {
                        let k = choose|k: int|
                            is_entry_point(r, device.numerical_id, k) && in_order(n.right)
                                == r.insert(k, device);
                        let at = l.len() + 1 + k;
                        assert((l.push(n.dev) + r.insert(k, device)) =~= whole.insert(at, device));
                        assert(is_entry_point(whole, device.numerical_id, at)) by {
                            assert forall|i: int| at <= i < whole.len() implies (
                            #[trigger] whole[i]).numerical_id <= device.numerical_id by {
                                assert(whole[i] == r[i - l.len() - 1]);
                            }
                            assert forall|i: int| 0 <= i < at implies (
                            #[trigger] whole[i]).numerical_id > device.numerical_id by {
                                if i < l.len() {
                                    assert(whole[i] == l[i]);
                                } else if i > l.len() {
                                    assert(whole[i] == r[i - l.len() - 1]);
                                }
                            }
                        }
                        assert forall|i: int| 0 <= i < in_order(n.right).len() implies (
                        #[trigger] in_order(n.right)[i]).numerical_id < n.dev.numerical_id by {
                            if i < k {
                                assert(in_order(n.right)[i] == r[i]);
                            } else if i > k {
                                assert(in_order(n.right)[i] == r[i - 1]);
                            }
                        }
                    }
                    Some(n)
                }
            },
            _ => {
                let tree = Node::new(device);
                proof {
                    assert(in_order(node) =~= Seq::empty());
                    assert(in_order(tree) =~= in_order(node).insert(0, device));
                    assert(is_entry_point(in_order(node), device.numerical_id, 0));
                }
                tree
            },
        }
    }

    /// A copy of the device with the id `numerical_id`; of several, the one
    /// that a walk meets last, which is the one added first. `None` where
    /// no device has this id.
    pub fn find(&self, numerical_id: u64) -> (r: Option<IoTDevice>)
        requires
            self.well_formed(),
        ensures
            match r {
                Some(dev) => exists|j: int|
                    is_last_with_id(self@, numerical_id, j) && dev == self@[j],
                None => forall|j: int|
                    0 <= j < self@.len() ==> (#[trigger] self@[j]).numerical_id != numerical_id,
            },
    {
        let found = Self::find_r(&self.root, numerical_id);
        proof {
            if found.is_some() {
                let j = choose|j: int|
                    is_last_with_id(in_order(self.root), numerical_id, j) && found.unwrap()
                        == in_order(self.root)[j];
                assert(is_last_with_id(self@, numerical_id, j) && found.unwrap() == self@[j]);
            }
        }
        found
    }

    fn find_r(node: &Option<Box<Node>>, numerical_id: u64) -> (r: Option<IoTDevice>)
        requires
            ordered(*node),
        ensures
            match r {
                Some(dev) => exists|j: int|
                    is_last_with_id(in_order(*node), numerical_id, j) && dev == in_order(*node)[j],
                None => forall|j: int|
                    0 <= j < in_order(*node).len() ==> (#[trigger] in_order(
                        *node,
                    )[j]).numerical_id != numerical_id,
            },
        decreases *node,
    {
        match node {
            Some(n) => {
                let ghost l = in_order(n.left);
                let ghost r = in_order(n.right);
                let ghost whole = in_order(*node);
                proof {
                    assert(whole == l.push(n.dev) + r);
                    assert forall|i: int| 0 <= i < whole.len() implies (#[trigger] whole[i]) == (if i
                        < l.len() {
                        l[i]
                    } else if i == l.len() {
                        n.dev
                    } else {
                        r[i - l.len() - 1]
                    }) by {}
                }
                if n.dev.numerical_id == numerical_id {
                    proof {
                        assert(is_last_with_id(whole, numerical_id, l.len() as int));
                    }
                    Some(n.dev.clone())
                } else if n.dev.numerical_id < numerical_id {
                    let found = Self::find_r(&n.left, numerical_id);
                    proof {
                        match found {
                            Some(_) => {
                                let dev = found.unwrap();
                                let j = choose|j: int|
                                    is_last_with_id(l, numerical_id, j) && dev == l[j];
                                assert(whole[j] == l[j]);
                                assert forall|i: int| j < i < whole.len() implies (
                                #[trigger] whole[i]).numerical_id != numerical_id by {
                                    if i < l.len() {
                                        assert(l[i].numerical_id != numerical_id);
                                    }
                                }
                                assert(is_last_with_id(whole, numerical_id, j));
                            },
                            None => {
                                assert forall|j: int| 0 <= j < whole.len() implies (
                                #[trigger] whole[j]).numerical_id != numerical_id by {
                                    if j < l.len() {
                                        assert(l[j].numerical_id != numerical_id);
                                    }
                                }
                            },
                        }
                    }
                    found
                } else {
                    let found = Self::find_r(&n.right, numerical_id);
                    proof {
                        match found {
                            Some(_) => {
                                let dev = found.unwrap();
                                let j = choose|j: int|
                                    is_last_with_id(r, numerical_id, j) && dev == r[j];
                                let at = l.len() + 1 + j;
                                assert(whole[at] == r[j]);
                                assert forall|i: int| at < i < whole.len() implies (
                                #[trigger] whole[i]).numerical_id != numerical_id by {
                                    assert(r[i - l.len() - 1].numerical_id != numerical_id);
                                }
                                assert(is_last_with_id(whole, numerical_id, at));
                            },
                            None => {
                                assert forall|j: int| 0 <= j < whole.len() implies (
                                #[trigger] whole[j]).numerical_id != numerical_id by {
                                    if j > l.len() {
                                        assert(r[j - l.len() - 1].numerical_id != numerical_id);
                                    } else if j < l.len() {
                                        assert(l[j].numerical_id >= n.dev.numerical_id);
                                    }
                                }
                            },
                        }
                    }
                    found
                }
            },
            _ => None,
        }
    }

    /// Calls `callback` on each device, from the greatest id down. The
    /// callback has to accept every device of the tree.
    pub fn walk<F: Fn(&IoTDevice) -> ()>(&self, callback: F)
        requires
            forall|i: int| 0 <= i < self@.len() ==> call_requires(callback, (&#[trigger] self@[i],)),
    {
        proof {
            assert forall|i: int| 0 <= i < in_order(self.root).len() implies call_requires(
                callback,
                (&#[trigger] in_order(self.root)[i],),
            ) by {
                assert(self@[i] == in_order(self.root)[i]);
            }
        }
        Self::walk_in_order(&self.root, &callback)
    }

    fn walk_in_order<F: Fn(&IoTDevice) -> ()>(node: &Option<Box<Node>>, callback: &F)
        requires
            forall|i: int|
                0 <= i < in_order(*node).len() ==> call_requires(
                    *callback,
                    (&#[trigger] in_order(*node)[i],),
                ),
        decreases *node,
    {
        if let Some(n) = node {
            proof {
                let l = in_order(n.left);
                let r = in_order(n.right);
                let whole = in_order(*node);
                assert(whole == l.push(n.dev) + r);
                assert forall|i: int| 0 <= i < l.len() implies call_requires(
                    *callback,
                    (&#[trigger] l[i],),
                ) by {
                    assert(whole[i] == l[i]);
                }
                assert forall|i: int| 0 <= i < r.len() implies call_requires(
                    *callback,
                    (&#[trigger] r[i],),
                ) by {
                    assert(whole[l.len() + 1 + i] == r[i]);
                }
                assert(whole[l.len() as int] == n.dev);
            }
            Self::walk_in_order(&n.left, callback);
            callback(&n.dev);
            Self::walk_in_order(&n.right, callback)
        }
    }

    /// Copies of the devices in the order in which a walk meets them.
    pub fn devices(&self) -> (all: Vec<IoTDevice>)
        ensures
            all@ == self@,
    {
        let mut all: Vec<IoTDevice> = Vec::new();
        Self::collect(&self.root, &mut all);
        all
    }

    fn collect(node: &Option<Box<Node>>, into: &mut Vec<IoTDevice>)
        ensures
            final(into)@ == old(into)@ + in_order(*node),
        decreases *node,
    {
        match node {
            Some(n) => {
                Self::collect(&n.left, into);
                into.push(n.dev.clone());
                Self::collect(&n.right, into);
                proof {
                    assert(into@ =~= old(into)@ + in_order(*node));
                }
            },
            None => {
                proof {
                    assert(into@ =~= old(into)@ + in_order(*node));
                }
            },
        }
    }
}

} // verus!
