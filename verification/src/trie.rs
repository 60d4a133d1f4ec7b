//! A registry of devices by the characters of their path: a trie with one
//! node for each path prefix that was ever registered. The children of a
//! node are kept in a hash map under the code point of their character.

use std::collections::HashMap;
use vstd::prelude::*;
use vstd::std_specs::iter::IteratorSpec;
use vstd::string::StrSliceExecFns;

verus! {

broadcast use vstd::std_specs::hash::group_hash_axioms;

#[derive(Debug)]
pub struct IoTDevice {
    numerical_id: u64,
    address: String,
    path: String,
}

/// A device as plain values.
pub struct DeviceView {
    pub numerical_id: u64,
    pub address: Seq<char>,
    pub path: Seq<char>,
}

impl View for IoTDevice {
    type V = DeviceView;

    closed spec fn view(&self) -> DeviceView {
        DeviceView { numerical_id: self.numerical_id, address: self.address@, path: self.path@ }
    }
}

impl Clone for IoTDevice {
    fn clone(&self) -> (copy: Self)
        ensures
            copy == *self,
    {
        IoTDevice {
            numerical_id: self.numerical_id,
            address: self.address.clone(),
            path: self.path.clone(),
        }
    }
}

impl IoTDevice {
    pub fn new(numerical_id: u64, address: String, path: String) -> (dev: IoTDevice)
        ensures
            dev@ == (DeviceView { numerical_id, address: address@, path: path@ }),
    {
        IoTDevice { numerical_id, address: address, path: path }
    }

    pub fn numerical_id(&self) -> (id: u64)
        ensures
            id == self@.numerical_id,
    {
        self.numerical_id
    }

    pub fn address(&self) -> (address: &String)
        ensures
            address@ == self@.address,
    {
        &self.address
    }

    pub fn path(&self) -> (path: &String)
        ensures
            path@ == self@.path,
    {
        &self.path
    }
}

struct Node {
    pub key: char,
    next: HashMap<u32, Box<Node>>,
    pub value: Option<IoTDevice>,
}

impl Node {
    /// The node has the key `key`, holds `device` and has no children.
    pub closed spec fn is_leaf_with(&self, key: char, device: Option<IoTDevice>) -> bool {
        &&& self.key == key
        &&& self.value == device
        &&& self.next@ == Map::<u32, Box<Node>>::empty()
    }

    pub fn new(key: char, device: Option<IoTDevice>) -> (node: Box<Node>)
        ensures
            node.is_leaf_with(key, device),
    {
        Box::new(Node { key, next: HashMap::new(), value: device })
    }
}

/// The key under which the child for the character `c` is kept.
spec fn code(c: char) -> u32 {
    c as u32
}

/// The node that the characters of `path` lead to from the children
/// `children`, where each of them has a node.
spec fn node_at(children: Map<u32, Box<Node>>, path: Seq<char>) -> Option<Node>
    decreases path.len(),
{
    if path.len() == 0 || !children.contains_key(code(path[0])) {
        None
    } else if path.len() == 1 {
        Some(*children[code(path[0])])
    } else {
        node_at(children[code(path[0])].next@, path.drop_first())
    }
}

/// What the nodes below `children` hold, by the path that leads to each.
spec fn contents(children: Map<u32, Box<Node>>) -> Map<Seq<char>, Option<IoTDevice>> {
    Map::new(
        |path: Seq<char>| node_at(children, path).is_some(),
        |path: Seq<char>| node_at(children, path).unwrap().value,
    )
}

/// `k` is the key of a character.
spec fn is_code(k: u32) -> bool {
    exists|c: char| #[trigger] code(c) == k
}

/// Every child is kept under the key of a character.
spec fn keys_ok(children: Map<u32, Box<Node>>) -> bool {
    forall|k: u32| #[trigger] children.contains_key(k) ==> is_code(k)
}

/// Every child below `children`, on whatever level, is kept under the key
/// of a character.
spec fn tidy(children: Map<u32, Box<Node>>) -> bool {
    &&& keys_ok(children)
    &&& forall|q: Seq<char>|
        (#[trigger] node_at(children, q)).is_some() ==> keys_ok(node_at(children, q).unwrap().next@)
}

/// Some node below `children` holds the device `d`.
spec fn below(children: Map<u32, Box<Node>>, d: IoTDevice) -> bool {
    exists|q: Seq<char>|
        (#[trigger] node_at(children, q)).is_some() && node_at(children, q).unwrap().value == Some(d)
}

/// The node `node` or some node below it holds the device `d`.
spec fn holds(node: Node, d: IoTDevice) -> bool {
    node.value == Some(d) || below(node.next@, d)
}

/// The device `d` is registered under some path.
pub open spec fn is_registered(known: Map<Seq<char>, Option<IoTDevice>>, d: IoTDevice) -> bool {
    exists|path: Seq<char>| #[trigger] known.contains_key(path) && known[path] == Some(d)
}

/// `prefix` is a beginning of `path` of at least one character.
pub open spec fn is_prefix(prefix: Seq<char>, path: Seq<char>) -> bool {
    1 <= prefix.len() <= path.len() && prefix == path.take(prefix.len() as int)
}

/// The registry after `device` is registered under `path`: every
/// beginning of `path` has a node, `path` holds `device`, and every other
/// node holds what it held, a new one nothing.
pub open spec fn registered(
    before: Map<Seq<char>, Option<IoTDevice>>,
    path: Seq<char>,
    device: IoTDevice,
) -> Map<Seq<char>, Option<IoTDevice>> {
    Map::new(
        |q: Seq<char>| before.contains_key(q) || is_prefix(q, path),
        |q: Seq<char>|
            if q == path {
                Some(device)
            } else if before.contains_key(q) {
                before[q]
            } else {
                None
            },
    )
}

/// The characters of `s`.
fn chars_of(s: &str) -> (chars: Vec<char>)
    ensures
        chars@ == s@,
{
    let n = s.unicode_len();
    let mut chars: Vec<char> = Vec::new();
    let mut i: usize = 0;
    while i < n
        invariant
            i <= n,
            n == s@.len(),
            chars@ == s@.take(i as int),
        decreases n - i,
    {
        chars.push(s.get_char(i));
        proof {
            assert(s@.take(i + 1) =~= s@.take(i as int).push(s@[i as int]));
        }
        i += 1;
    }
    proof {
        assert(s@.take(i as int) =~= s@);
    }
    chars
}

pub struct DeviceRegistry {
    pub length: u64,
    root: HashMap<u32, Box<Node>>,
}

impl View for DeviceRegistry {
    type V = Map<Seq<char>, Option<IoTDevice>>;

    /// For each path that leads to a node, the device registered under
    /// exactly this path, if there is one.
    closed spec fn view(&self) -> Map<Seq<char>, Option<IoTDevice>> {
        contents(self.root@)
    }
}

impl DeviceRegistry {
    /// The value of the field `length`.
    pub closed spec fn count(&self) -> u64 {
        self.length
    }

    /// The value of the field `length`: the number of registrations.
    pub fn len(&self) -> (n: u64)
        ensures
            n == self.count(),
    {
        self.length
    }

    /// Every node is kept under the key of its character.
    pub closed spec fn well_formed(&self) -> bool {
        tidy(self.root@)
    }

    pub fn new_empty() -> (registry: DeviceRegistry)
        ensures
            registry@ == Map::<Seq<char>, Option<IoTDevice>>::empty(),
            registry.count() == 0,
            registry.well_formed(),
    {
        let registry = DeviceRegistry { length: 0, root: HashMap::new() };
        proof {
            assert(registry@ =~= Map::<Seq<char>, Option<IoTDevice>>::empty());
        }
        registry
    }

    /// Registers `device` under its path and counts it. A device under the
    /// same path is replaced, and counted again. A device with an empty
    /// path is neither registered nor counted.
    pub fn add(&mut self, device: IoTDevice)
        requires
            old(self).count() < u64::MAX,
        ensures
            device@.path.len() == 0 ==> final(self)@ == old(self)@ && final(self).count() == old(
                self,
            ).count(),
            device@.path.len() > 0 ==> final(self)@ == registered(old(self)@, device@.path, device)
                && final(self).count() == old(self).count() + 1,
            old(self).well_formed() ==> final(self).well_formed(),
    {
        let chars = chars_of(device.path.as_str());
        if chars.len() > 0 {
            self.length += 1;
            let ghost before = self.root@;
            let ghost path = chars@;
            Self::add_from(&mut self.root, &chars, 0, device);
            proof {
                assert(path.skip(0) =~= path);
                assert(contents(self.root@) =~= registered(contents(before), path, device)) by {
                    assert forall|q: Seq<char>|
                        contents(self.root@).contains_key(q) <==> registered(
                            contents(before),
                            path,
                            device,
                        ).contains_key(q) by {}
                }
            }
        }
    }

    /// A copy of the device registered under exactly `path`, or `None`
    /// where there is none: where `path` is empty, where it leads to no
    /// node, and where its node holds no device.
    pub fn find(&mut self, path: &str) -> (r: Option<IoTDevice>)
        ensures
            final(self)@ == old(self)@,
            final(self).count() == old(self).count(),
            final(self).well_formed() == old(self).well_formed(),
            r == if old(self)@.contains_key(path@) {
                old(self)@[path@]
            } else {
                None
            },
    {
        let chars = chars_of(path);
        let n = chars.len();
        if n == 0 {
            return None;
        }
        let start = chars[0];
        proof {
            assert(chars@.take(1) =~= seq![start]);
            assert(seq![start][0] == start);
            assert(chars@.take(n as int) =~= chars@);
        }
        match self.root.get(&(start as u32)) {
            None => {
                proof {
                    lemma_node_at_prefix(self.root@, chars@, 1);
                }
                None
            },
            Some(first) => {
                let mut node: &Box<Node> = first;
                let mut i: usize = 1;
                while i < n
                    invariant
                        1 <= i <= n,
                        n == chars@.len(),
                        chars@ == path@,
                        *self == *old(self),
                        node_at(self.root@, chars@.take(i as int)) == Some(**node),
                    decreases n - i,
                {
                    let c = chars[i];
                    proof {
                        lemma_node_at_push(self.root@, chars@.take(i as int), c);
                        assert(chars@.take(i + 1) =~= chars@.take(i as int).push(c));
                    }
                    match node.next.get(&(c as u32)) {
                        Some(child) => {
                            node = child;
                            i += 1;
                        },
                        None => {
                            proof {
                                lemma_node_at_prefix(self.root@, chars@, i + 1);
                            }
                            return None;
                        },
                    }
                }
                match &node.value {
                    Some(dev) => Some(dev.clone()),
                    None => None,
                }
            },
        }
    }

    /// Calls `callback` on each registered device, on those below a node
    /// before the one that the node holds itself.
    pub fn walk<F: Fn(&IoTDevice) -> ()>(&self, callback: F)
        requires
            forall|dev: &IoTDevice| call_requires(callback, (dev,)),
    {
        for r in self.root.values()
            invariant
                forall|dev: &IoTDevice| call_requires(callback, (dev,)),
        {
            Self::walk_r(r, &callback)
        }
    }

    fn walk_r<F: Fn(&IoTDevice) -> ()>(node: &Box<Node>, callback: &F)
        requires
            forall|dev: &IoTDevice| call_requires(*callback, (dev,)),
        decreases node,
    {
        for n in it: node.next.values()
            invariant
                forall|dev: &IoTDevice| call_requires(*callback, (dev,)),
                it.seq().unref().to_set() == node.next@.values(),
        {
            proof {
                let i = it.index();
                assert(it.seq().unref()[i] == **n);
                assert(it.seq().unref().to_set().contains(*n));
                let k = choose|k: u32| node.next@.dom().contains(k) && node.next@[k] == *n;
                assert(decreases_to!(node.next => node.next@));
                assert(decreases_to!(node.next@ => node.next@[k]));
            }
            Self::walk_r(n, callback);
        }
        if let Some(ref dev) = node.value {
            callback(dev)
        }
    }

    /// Registers `device` under the characters of `chars` from `at` on,
    /// below `children`.
    fn add_from(
        children: &mut HashMap<u32, Box<Node>>,
        chars: &Vec<char>,
        at: usize,
        device: IoTDevice,
    )
        requires
            at < chars@.len(),
        ensures
            forall|q: Seq<char>|
                (#[trigger] node_at(final(children)@, q)).is_some() <==> (node_at(
                    old(children)@,
                    q,
                ).is_some() || is_prefix(q, chars@.skip(at as int))),
            forall|q: Seq<char>|
                (#[trigger] node_at(final(children)@, q)).is_some() ==> node_at(
                    final(children)@,
                    q,
                ).unwrap().value == (if q == chars@.skip(at as int) {
                    Some(device)
                } else if node_at(old(children)@, q).is_some() {
                    node_at(old(children)@, q).unwrap().value
                } else {
                    None
                }),
            tidy(old(children)@) ==> tidy(final(children)@),
        decreases chars@.len() - at,
    {
        let c = chars[at];
        let k = c as u32;
        let ghost before = children@;
        let ghost rest = chars@.skip(at as int);
        let mut node = match children.remove(&k) {
            Some(n) => n,
            None => Node::new(c, None),
        };
        let ghost entered = *node;
        let ghost without = children@;
        proof {
            if tidy(before) {
                if before.contains_key(k) {
                    lemma_tidy_child(before, c);
                }
                assert(tidy(entered.next@));
            }
        }
        let n = chars.len();
        if at + 1 == n {
            node.value = Some(device);
        } else {
            Self::add_from(&mut node.next, chars, at + 1, device);
        }
        let ghost left = *node;
        children.insert(k, node);
        proof {
            assert(rest.len() == chars@.len() - at);
            assert(rest[0] == c);
            assert(rest.drop_first() =~= chars@.skip(at + 1));
            assert(children@ == without.insert(k, Box::new(left)));
            assert forall|q: Seq<char>|
                (#[trigger] node_at(children@, q)).is_some() <==> (node_at(before, q).is_some()
                    || is_prefix(q, rest)) by {
                lemma_after_add(before, children@, entered, left, rest, device, q);
            }
            assert forall|q: Seq<char>| (#[trigger] node_at(children@, q)).is_some() implies node_at(
                children@,
                q,
            ).unwrap().value == (if q == rest {
                Some(device)
            } else if node_at(before, q).is_some() {
                node_at(before, q).unwrap().value
            } else {
                None
            }) by {
                lemma_after_add(before, children@, entered, left, rest, device, q);
            }
            if tidy(before) {
                lemma_tidy_after_add(before, children@, left, c);
            }
        }
    }

    /// Copies of the registered devices, those below a node before the
    /// one that the node holds itself; the children of a node come in the
    /// order of the hash map.
    pub fn devices(&self) -> (all: Vec<IoTDevice>)
        requires
            self.well_formed(),
        ensures
            forall|d: IoTDevice| #[trigger] all@.contains(d) <==> is_registered(self@, d),
    {
        let mut all: Vec<IoTDevice> = Vec::new();
        Self::collect(&self.root, &mut all);
        proof {
            assert forall|d: IoTDevice| #[trigger] all@.contains(d) <==> is_registered(
                self@,
                d,
            ) by {
                if all@.contains(d) {
                    assert(below(self.root@, d));
                    let q = choose|q: Seq<char>|
                        (#[trigger] node_at(self.root@, q)).is_some() && node_at(
                            self.root@,
                            q,
                        ).unwrap().value == Some(d);
                    assert(self@.contains_key(q) && self@[q] == Some(d));
                }
                if is_registered(self@, d) {
                    let path = choose|path: Seq<char>|
                        #[trigger] self@.contains_key(path) && self@[path] == Some(d);
                    assert(node_at(self.root@, path).is_some());
                    assert(below(self.root@, d));
                }
            }
        }
        all
    }

    /// Adds to `into` copies of the devices that the nodes below
    /// `children` hold.
    fn collect(children: &HashMap<u32, Box<Node>>, into: &mut Vec<IoTDevice>)
        requires
            tidy(children@),
        ensures
            forall|d: IoTDevice|
                #[trigger] final(into)@.contains(d) <==> (old(into)@.contains(d) || below(
                    children@,
                    d,
                )),
        decreases children,
    {
        let ghost start = into@;
        let ghost listed = vstd::std_specs::hash::spec_values_iter(children).remaining().unref();
        let ghost mut done: int = 0;
        for n in it: children.values()
            invariant
                tidy(children@),
                it.seq().unref() == listed,
                done == it.index(),
                listed.to_set() == children@.values(),
                forall|d: IoTDevice|
                    #[trigger] into@.contains(d) <==> (start.contains(d) || exists|j: int|
                        0 <= j < done && #[trigger] holds(*listed[j], d)),
        {
            let ghost i = it.index();
            let ghost then = into@;
            proof {
                assert(listed[i] == **n);
                assert(listed.to_set().contains(*n));
                let k = choose|k: u32| children@.dom().contains(k) && children@[k] == *n;
                assert(decreases_to!(children => children@));
                assert(decreases_to!(children@ => children@[k]));
                assert(children@.contains_key(k));
                let c = choose|c: char| #[trigger] code(c) == k;
                lemma_tidy_child(children@, c);
            }
            Self::collect(&n.next, into);
            let ghost mid = into@;
            match &n.value {
                Some(dev) => {
                    into.push(dev.clone());
                },
                None => {},
            }
            proof {
                assert forall|d: IoTDevice|
                    #[trigger] into@.contains(d) <==> (start.contains(d) || exists|j: int|
                        0 <= j < i + 1 && #[trigger] holds(*listed[j], d)) by {
                    lemma_contains_push(mid, n.value, into@, d);
                    assert(mid.contains(d) <==> (then.contains(d) || below(n.next@, d)));
                    assert(then.contains(d) <==> (start.contains(d) || exists|j: int|
                        0 <= j < i && #[trigger] holds(*listed[j], d)));
                    if then.contains(d) && !start.contains(d) {
                        let j = choose|j: int| 0 <= j < i && #[trigger] holds(*listed[j], d);
                        assert(0 <= j < i + 1 && holds(*listed[j], d));
                    }
                    if holds(**n, d) {
                        assert(holds(*listed[i], d));
                    }
                    if exists|j: int| 0 <= j < i + 1 && #[trigger] holds(*listed[j], d) {
                        let j = choose|j: int| 0 <= j < i + 1 && #[trigger] holds(*listed[j], d);
                        if j < i {
                            assert(0 <= j < i && holds(*listed[j], d));
                            assert(then.contains(d));
                        } else {
                            assert(holds(**n, d));
                        }
                    }
                }
                done = done + 1;
            }
        }
        proof {
            assert(done == listed.len());
            assert forall|d: IoTDevice|
                into@.contains(d) <==> (start.contains(d) || below(children@, d)) by {
                if exists|j: int| 0 <= j < listed.len() && #[trigger] holds(*listed[j], d) {
                    let j = choose|j: int| 0 <= j < listed.len() && #[trigger] holds(*listed[j], d);
                    assert(listed.to_set().contains(listed[j]));
                    lemma_child_holds(children@, listed[j], d);
                }
                if below(children@, d) {
                    let q = choose|q: Seq<char>|
                        (#[trigger] node_at(children@, q)).is_some() && node_at(
                            children@,
                            q,
                        ).unwrap().value == Some(d);
                    let child = children@[code(q[0])];
                    assert(children@.values().contains(child));
                    assert(listed.to_set().contains(child));
                    let j = choose|j: int| 0 <= j < listed.len() && listed[j] == child;
                    assert(holds(*listed[j], d)) by {
                        if q.len() > 1 {
                            assert(node_at(child.next@, q.drop_first()).is_some());
                        }
                    }
                }
            }
        }
    }
}

/// What a vector holds after an optional item is pushed.
proof fn lemma_contains_push(
    before: Seq<IoTDevice>,
    pushed: Option<IoTDevice>,
    after: Seq<IoTDevice>,
    d: IoTDevice,
)
    requires
        after == match pushed {
            Some(item) => before.push(item),
            None => before,
        },
    ensures
        after.contains(d) <==> (before.contains(d) || pushed == Some(d)),
{
    match pushed {
        Some(item) => {
            if before.contains(d) {
                let i = choose|i: int| 0 <= i < before.len() && before[i] == d;
                assert(after[i] == d);
            }
            if item == d {
                assert(after[before.len() as int] == d);
            }
            if after.contains(d) {
                let i = choose|i: int| 0 <= i < after.len() && after[i] == d;
                if i < before.len() {
                    assert(before[i] == d);
                }
            }
        },
        None => {},
    }
}

/// Below a tidy map every child's own children are tidy.
proof fn lemma_tidy_child(children: Map<u32, Box<Node>>, c: char)
    requires
        tidy(children),
        children.contains_key(code(c)),
    ensures
        tidy(children[code(c)].next@),
{
    let child = children[code(c)];
    let first = seq![c];
    assert(first[0] == c);
    assert(node_at(children, first) == Some(*child));
    assert forall|q: Seq<char>| (#[trigger] node_at(child.next@, q)).is_some() implies keys_ok(
        node_at(child.next@, q).unwrap().next@,
    ) by {
        let longer = first + q;
        assert(longer[0] == c);
        assert(longer.drop_first() =~= q);
        assert(node_at(children, longer) == node_at(child.next@, q));
    }
}

/// A device that a child or a node below it holds is held by a node
/// below the children.
proof fn lemma_child_holds(children: Map<u32, Box<Node>>, child: Box<Node>, d: IoTDevice)
    requires
        keys_ok(children),
        children.values().contains(child),
        holds(*child, d),
    ensures
        below(children, d),
{
    let k = choose|k: u32| children.dom().contains(k) && children[k] == child;
    assert(children.contains_key(k));
    let c = choose|c: char| #[trigger] code(c) == k;
    let first = seq![c];
    assert(first[0] == c);
    if child.value == Some(d) {
        assert(node_at(children, first) == Some(*child));
    } else {
        let q = choose|q: Seq<char>|
            (#[trigger] node_at(child.next@, q)).is_some() && node_at(
                child.next@,
                q,
            ).unwrap().value == Some(d);
        let longer = first + q;
        assert(longer[0] == c);
        assert(longer.drop_first() =~= q);
        assert(node_at(children, longer) == node_at(child.next@, q));
    }
}

/// A registration keeps the children tidy.
proof fn lemma_tidy_after_add(
    before: Map<u32, Box<Node>>,
    after: Map<u32, Box<Node>>,
    left: Node,
    c: char,
)
    requires
        tidy(before),
        tidy(left.next@),
        after == before.remove(code(c)).insert(code(c), Box::new(left)),
    ensures
        tidy(after),
{
    let k = code(c);
    assert forall|j: u32| #[trigger] after.contains_key(j) implies is_code(j) by {
        if j != k {
            assert(before.contains_key(j));
        }
    }
    assert forall|q: Seq<char>| (#[trigger] node_at(after, q)).is_some() implies keys_ok(
        node_at(after, q).unwrap().next@,
    ) by {
        if code(q[0]) != k {
            assert(after.contains_key(code(q[0])) == before.contains_key(code(q[0])));
            assert(after[code(q[0])] == before[code(q[0])]);
            assert(node_at(after, q) == node_at(before, q));
        } else if q.len() == 1 {
            assert(node_at(after, q) == Some(left));
        } else {
            assert(node_at(after, q) == node_at(left.next@, q.drop_first()));
        }
    }
}

/// One character more leads from a node to its child for that character,
/// if it has one.
proof fn lemma_node_at_push(children: Map<u32, Box<Node>>, path: Seq<char>, c: char)
    requires
        node_at(children, path).is_some(),
    ensures
        node_at(children, path.push(c)) == if node_at(children, path).unwrap().next@.contains_key(
            code(c),
        ) {
            Some(*node_at(children, path).unwrap().next@[code(c)])
        } else {
            None
        },
    decreases path.len(),
{
    let longer = path.push(c);
    reveal_with_fuel(node_at, 3);
    assert(longer[0] == path[0]);
    if path.len() == 1 {
        assert(longer.drop_first() =~= seq![c]);
        assert(seq![c][0] == c);
    } else {
        assert(longer.drop_first() =~= path.drop_first().push(c));
        lemma_node_at_push(children[code(path[0])].next@, path.drop_first(), c);
    }
}

/// A path that leads to a node leads to one with each of its beginnings.
proof fn lemma_node_at_prefix(children: Map<u32, Box<Node>>, path: Seq<char>, j: int)
    requires
        1 <= j <= path.len(),
        node_at(children, path.take(j)).is_none(),
    ensures
        node_at(children, path).is_none(),
    decreases path.len(),
{
    let head = path.take(j);
    assert(head[0] == path[0]);
    if children.contains_key(code(path[0])) && path.len() > 1 {
        if j == 1 {
            assert(head.len() == 1);
        } else {
            assert(head.drop_first() =~= path.drop_first().take(j - 1));
            lemma_node_at_prefix(children[code(path[0])].next@, path.drop_first(), j - 1);
        }
    } else if children.contains_key(code(path[0])) {
        assert(head =~= path);
    }
}

/// What one level of a registration does to the node that `q` leads to.
proof fn lemma_after_add(
    before: Map<u32, Box<Node>>,
    after: Map<u32, Box<Node>>,
    entered: Node,
    left: Node,
    rest: Seq<char>,
    device: IoTDevice,
    q: Seq<char>,
)
    requires
        rest.len() >= 1,
        after == before.remove(code(rest[0])).insert(code(rest[0]), Box::new(left)),
        before.contains_key(code(rest[0])) ==> entered == *before[code(rest[0])],
        !before.contains_key(code(rest[0])) ==> entered.value.is_none() && entered.next@
            == Map::<u32, Box<Node>>::empty(),
        rest.len() == 1 ==> left.next@ == entered.next@ && left.value == Some(device),
        rest.len() > 1 ==> {
            &&& left.value == entered.value
            &&& forall|p: Seq<char>|
                (#[trigger] node_at(left.next@, p)).is_some() <==> (node_at(
                    entered.next@,
                    p,
                ).is_some() || is_prefix(p, rest.drop_first()))
            &&& forall|p: Seq<char>|
                (#[trigger] node_at(left.next@, p)).is_some() ==> node_at(
                    left.next@,
                    p,
                ).unwrap().value == (if p == rest.drop_first() {
                    Some(device)
                } else if node_at(entered.next@, p).is_some() {
                    node_at(entered.next@, p).unwrap().value
                } else {
                    None
                })
        },
    ensures
        node_at(after, q).is_some() <==> (node_at(before, q).is_some() || is_prefix(q, rest)),
        node_at(after, q).is_some() ==> node_at(after, q).unwrap().value == (if q == rest {
            Some(device)
        } else if node_at(before, q).is_some() {
            node_at(before, q).unwrap().value
        } else {
            None
        }),
{
    let k = code(rest[0]);
    if q.len() == 0 {
    } else if code(q[0]) != k {
        assert(q[0] != rest[0]);
        assert(!is_prefix(q, rest)) by {
            if is_prefix(q, rest) {
                assert(rest.take(q.len() as int)[0] == rest[0]);
            }
        }
        assert(after.contains_key(code(q[0])) == before.contains_key(code(q[0])));
        if before.contains_key(code(q[0])) {
            assert(after[code(q[0])] == before[code(q[0])]);
        }
    } else {
        assert(q[0] == rest[0]) by {
            vstd::utf8::char_u32_cast(q[0], q[0] as u32);
            vstd::utf8::char_u32_cast(rest[0], rest[0] as u32);
        }
        let p = q.drop_first();
        if q.len() == 1 {
            assert(q =~= rest.take(1));
            assert(is_prefix(q, rest));
            assert(node_at(after, q) == Some(left));
            if rest.len() == 1 {
                assert(rest.take(1) =~= rest);
            } else {
                assert(q != rest);
            }
        } else {
            assert(node_at(after, q) == node_at(left.next@, p));
            if before.contains_key(k) {
                assert(node_at(before, q) == node_at(entered.next@, p));
            } else {
                assert(node_at(before, q).is_none());
                assert(node_at(entered.next@, p).is_none());
            }
            assert(is_prefix(q, rest) <==> is_prefix(p, rest.drop_first())) by {
                if is_prefix(q, rest) {
                    assert(rest.drop_first().take(p.len() as int) =~= rest.take(
                        q.len() as int,
                    ).drop_first());
                }
                if is_prefix(p, rest.drop_first()) {
                    assert(rest.take(q.len() as int) =~= seq![rest[0]] + rest.drop_first().take(
                        p.len() as int,
                    ));
                    assert(q =~= seq![q[0]] + p);
                }
            }
            assert(q == rest <==> p == rest.drop_first()) by {
                if p == rest.drop_first() {
                    assert(q =~= seq![q[0]] + p);
                    assert(rest =~= seq![rest[0]] + rest.drop_first());
                }
            }
            if rest.len() == 1 {
                assert(!is_prefix(p, rest.drop_first()));
            }
        }
    }
}

} // verus!
