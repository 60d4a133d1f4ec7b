//! An append-only transaction log with express lanes. Every entry stands
//! on level 0; an entry of height `h` also stands on the levels below `h`,
//! and on each of its levels it points to the next entry that stands
//! there. The first entry has every level; the height of a later one is
//! drawn at random.
//!
//! The entries are kept in a vector in the order of their arrival, and an
//! entry points to another by its place in that vector.

use vstd::prelude::*;

verus! {

/// One entry of the log as plain values.
pub struct Entry {
    pub offset: u64,
    pub command: String,
    pub height: nat,
}

struct Node {
    next: Vec<Option<usize>>,
    pub offset: u64,
    pub command: String,
}

impl Node {
    fn new(next: Vec<Option<usize>>, offset: u64, command: String) -> (node: Node)
        ensures
            node.next == next,
            node.offset == offset,
            node.command == command,
    {
        Node { next, offset, command }
    }

    spec fn entry(self) -> Entry {
        Entry { offset: self.offset, command: self.command, height: self.next@.len() }
    }

    fn duplicate(&self) -> (copy: Self)
        ensures
            copy.next@ == self.next@,
            copy.offset == self.offset,
            copy.command == self.command,
    {
        let mut next: Vec<Option<usize>> = Vec::new();
        let mut i: usize = 0;
        while i < self.next.len()
            invariant
                i <= self.next@.len(),
                next@ == self.next@.take(i as int),
            decreases self.next@.len() - i,
        {
            next.push(self.next[i]);
            proof {
                assert(self.next@.take(i + 1) =~= self.next@.take(i as int).push(self.next@[i as int]));
            }
            i += 1;
        }
        proof {
            assert(self.next@.take(i as int) =~= self.next@);
            assert(next@ =~= self.next@);
        }
        Node { next, offset: self.offset, command: self.command.clone() }
    }
}

/// The first entry from place `from` on that stands on level `level`.
pub open spec fn first_on_level(entries: Seq<Entry>, from: int, level: int) -> Option<int>
    decreases entries.len() - from,
{
    if from < 0 || from >= entries.len() {
        None
    } else if entries[from].height > level {
        Some(from)
    } else {
        first_on_level(entries, from + 1, level)
    }
}

/// The entry after place `i` on level `level`.
pub open spec fn next_on_level(entries: Seq<Entry>, i: int, level: int) -> Option<int> {
    first_on_level(entries, i + 1, level)
}

/// Where a search for `offset` on level `level` gets from place `i`: it
/// goes on to the next entry on the level for as long as there is one
/// with an offset of at most `offset`.
pub open spec fn advance(entries: Seq<Entry>, i: int, level: int, offset: u64) -> int
    decreases entries.len() - i,
{
    match next_on_level(entries, i, level) {
        Some(j) => if i < j < entries.len() && entries[j].offset <= offset {
            advance(entries, j, level, offset)
        } else {
            i
        },
        None => i,
    }
}

/// What a search for `offset` finds from place `i` on the levels below
/// `levels`, from the highest of them down: on each level it advances, and
/// it ends at the first entry reached in this way that has the offset.
pub open spec fn search(entries: Seq<Entry>, i: int, levels: int, offset: u64) -> Option<String>
    decreases levels,
{
    if levels <= 0 {
        None
    } else {
        let j = advance(entries, i, levels - 1, offset);
        if entries[j].offset == offset {
            Some(entries[j].command)
        } else {
            search(entries, j, levels - 1, offset)
        }
    }
}

/// What a search over the levels below `levels` finds from the first
/// entry on. In a log whose offsets grow this is the command of the entry
/// with the offset; in another log it is the command of the first entry
/// with the offset that the search reaches, if it reaches one.
pub open spec fn searched(entries: Seq<Entry>, levels: int, offset: u64) -> Option<String> {
    if entries.len() == 0 {
        None
    } else {
        search(entries, 0, levels, offset)
    }
}

/// The offsets and commands from place `i` on along level `level`.
pub open spec fn lane(entries: Seq<Entry>, i: Option<int>, level: int) -> Seq<(u64, String)>
    decreases
            match i {
                Some(at) => entries.len() - at,
                None => 0,
            },
{
    match i {
        Some(at) => if 0 <= at < entries.len() {
            seq![(entries[at].offset, entries[at].command)] + lane(
                entries,
                match next_on_level(entries, at, level) {
                    Some(j) => if at < j < entries.len() {
                        Some(j)
                    } else {
                        None
                    },
                    None => None,
                },
                level,
            )
        } else {
            Seq::empty()
        },
        None => Seq::empty(),
    }
}

/// The first entry on a level from some place on is at or behind that
/// place, stands on the level, and none between the two does.
pub proof fn lemma_first_on_level(entries: Seq<Entry>, from: int, level: int)
    requires
        0 <= from,
    ensures
        match first_on_level(entries, from, level) {
            Some(j) => {
                &&& from <= j < entries.len()
                &&& entries[j].height > level
                &&& forall|k: int| from <= k < j ==> (#[trigger] entries[k]).height <= level
            },
            None => forall|k: int| from <= k < entries.len() ==> (#[trigger] entries[k]).height
                <= level,
        },
    decreases entries.len() - from,
{
    if from < entries.len() && entries[from].height <= level {
        lemma_first_on_level(entries, from + 1, level);
    }
}

/// The entry `j` is the first on the level from `from` on, where it stands
/// on the level and none from `from` up to it does.
pub proof fn lemma_first_on_level_is(entries: Seq<Entry>, from: int, level: int, j: int)
    requires
        0 <= from <= j < entries.len(),
        entries[j].height > level,
        forall|k: int| from <= k < j ==> (#[trigger] entries[k]).height <= level,
    ensures
        first_on_level(entries, from, level) == Some(j),
    decreases j - from,
{
    if from < j {
        lemma_first_on_level_is(entries, from + 1, level, j);
    }
}

/// No entry from `from` on stands on the level, so there is no first one.
pub proof fn lemma_first_on_level_none(entries: Seq<Entry>, from: int, level: int)
    requires
        0 <= from,
        forall|k: int| from <= k < entries.len() ==> (#[trigger] entries[k]).height <= level,
    ensures
        first_on_level(entries, from, level).is_none(),
    decreases entries.len() - from,
{
    if from < entries.len() {
        lemma_first_on_level_none(entries, from + 1, level);
    }
}

/// The offsets grow from each entry to the next.
pub open spec fn ascending_offsets(entries: Seq<Entry>) -> bool {
    forall|i: int, j: int|
        0 <= i < j < entries.len() ==> (#[trigger] entries[i]).offset < (#[trigger] entries[j]).offset
}

/// The command of an entry with the offset `offset`, if there is one.
pub open spec fn command_at(entries: Seq<Entry>, offset: u64) -> Option<String> {
    if exists|k: int| 0 <= k < entries.len() && (#[trigger] entries[k]).offset == offset {
        Some(
            entries[choose|k: int| 0 <= k < entries.len() && (#[trigger] entries[k]).offset == offset].command,
        )
    } else {
        None
    }
}

/// Where a search on one level ends: at or behind its start, at an entry
/// with an offset of at most `offset` if it moved at all, and before the
/// next entry on the level, if there is one, has an offset beyond
/// `offset`.
pub proof fn lemma_advance(entries: Seq<Entry>, i: int, level: int, offset: u64)
    requires
        0 <= i < entries.len(),
    ensures
        i <= advance(entries, i, level, offset) < entries.len(),
        advance(entries, i, level, offset) != i ==> entries[advance(
            entries,
            i,
            level,
            offset,
        )].offset <= offset,
        match next_on_level(entries, advance(entries, i, level, offset), level) {
            Some(j) => advance(entries, i, level, offset) < j < entries.len() && entries[j].offset
                > offset,
            None => true,
        },
    decreases entries.len() - i,
{
    lemma_first_on_level(entries, i + 1, level);
    match next_on_level(entries, i, level) {
        Some(j) => {
            if entries[j].offset <= offset {
                lemma_advance(entries, j, level, offset);
            }
        },
        None => {},
    }
}

/// In a log whose offsets grow, a search from an entry that is not beyond
/// `offset`, or from the first entry, over at least one level finds the
/// entry with the offset, and nothing where there is none.
pub proof fn lemma_search_ascending(entries: Seq<Entry>, i: int, levels: int, offset: u64)
    requires
        ascending_offsets(entries),
        forall|k: int| 0 <= k < entries.len() ==> (#[trigger] entries[k]).height >= 1,
        0 <= i < entries.len(),
        levels >= 1,
        i == 0 || entries[i].offset <= offset,
    ensures
        search(entries, i, levels, offset) == command_at(entries, offset),
    decreases levels,
{
    let j = advance(entries, i, levels - 1, offset);
    lemma_advance(entries, i, levels - 1, offset);
    reveal_with_fuel(search, 2);
    if entries[j].offset == offset {
        let k = choose|k: int| 0 <= k < entries.len() && (#[trigger] entries[k]).offset == offset;
        assert(k == j) by {
            if k < j {
                assert(entries[k].offset < entries[j].offset);
            } else if j < k {
                assert(entries[j].offset < entries[k].offset);
            }
        }
    } else if levels > 1 {
        lemma_search_ascending(entries, j, levels - 1, offset);
    } else {
        lemma_first_on_level(entries, j + 1, 0);
        assert forall|k: int| 0 <= k < entries.len() implies (#[trigger] entries[k]).offset
            != offset by {
            if k < j {
                assert(entries[k].offset < entries[j].offset);
            } else if k > j {
                assert(next_on_level(entries, j, 0) == Some(j + 1)) by {
                    assert(entries[j + 1].height >= 1);
                }
                if k > j + 1 {
                    assert(entries[j + 1].offset < entries[k].offset);
                }
            }
        }
    }
}

/// What a search finds is the command of an entry with the offset.
pub proof fn lemma_search_sound(entries: Seq<Entry>, i: int, levels: int, offset: u64)
    requires
        0 <= i < entries.len(),
    ensures
        match search(entries, i, levels, offset) {
            Some(command) => exists|k: int|
                0 <= k < entries.len() && (#[trigger] entries[k]).offset == offset
                    && entries[k].command == command,
            None => true,
        },
    decreases levels,
{
    if levels > 0 {
        let j = advance(entries, i, levels - 1, offset);
        lemma_advance(entries, i, levels - 1, offset);
        if entries[j].offset == offset {
            assert(entries[j].command == search(entries, i, levels, offset).unwrap());
        } else {
            lemma_search_sound(entries, j, levels - 1, offset);
        }
    }
}

/// What one more entry at the end does to the next entry of an earlier
/// one: a next entry stays, and where there was none, the new entry is the
/// next on the levels on which it stands.
pub proof fn lemma_next_after_push(entries: Seq<Entry>, added: Entry, i: int, level: int)
    requires
        0 <= i < entries.len(),
    ensures
        next_on_level(entries.push(added), i, level) == match next_on_level(entries, i, level) {
            Some(j) => Some(j),
            None => if added.height > level {
                Some(entries.len() as int)
            } else {
                None
            },
        },
{
    let longer = entries.push(added);
    lemma_first_on_level(entries, i + 1, level);
    match next_on_level(entries, i, level) {
        Some(j) => {
            assert forall|k: int| i + 1 <= k < j implies (#[trigger] longer[k]).height <= level by {
                assert(longer[k] == entries[k]);
            }
            assert(longer[j] == entries[j]);
            lemma_first_on_level_is(longer, i + 1, level, j);
        },
        None => {
            assert forall|k: int| i + 1 <= k < entries.len() implies (
            #[trigger] longer[k]).height <= level by {
                assert(longer[k] == entries[k]);
            }
            if added.height > level {
                lemma_first_on_level_is(longer, i + 1, level, entries.len() as int);
            } else {
                lemma_first_on_level_none(longer, i + 1, level);
            }
        },
    }
}

/// The place `a` of a vector is the place `b` of the model, or both are
/// none.
spec fn same_place(a: Option<usize>, b: Option<int>) -> bool {
    match (a, b) {
        (Some(x), Some(y)) => x == y,
        (None, None) => true,
        _ => false,
    }
}

/// The entries that the nodes stand for.
spec fn entries_of(nodes: Seq<Node>) -> Seq<Entry> {
    Seq::new(nodes.len(), |i: int| nodes[i].entry())
}

/// On the levels below `done` each node points to its next entry in
/// `after`, on the others to its next entry in `before`.
spec fn links_ok(nodes: Seq<Node>, before: Seq<Entry>, after: Seq<Entry>, done: int) -> bool {
    forall|i: int, l: int|
        0 <= i < nodes.len() && 0 <= l < nodes[i].next@.len() ==> same_place(
            #[trigger] nodes[i].next@[l],
            if l < done {
                next_on_level(after, i, l)
            } else {
                next_on_level(before, i, l)
            },
        )
}

/// `last` is the last entry of `entries` that stands on level `level`.
spec fn is_last_on_level(entries: Seq<Entry>, level: int, last: Option<usize>) -> bool {
    match last {
        Some(t) => {
            &&& t < entries.len()
            &&& entries[t as int].height > level
            &&& forall|k: int| t < k < entries.len() ==> (#[trigger] entries[k]).height <= level
        },
        None => forall|k: int| 0 <= k < entries.len() ==> (#[trigger] entries[k]).height <= level,
    }
}

/// On the levels below `done` the tail names the last entry of `after`,
/// on the others the last entry of `before`.
spec fn tail_ok(tail: Seq<Option<usize>>, before: Seq<Entry>, after: Seq<Entry>, done: int) -> bool {
    forall|l: int|
        0 <= l < tail.len() ==> is_last_on_level(
            if l < done {
                after
            } else {
                before
            },
            l,
            #[trigger] tail[l],
        )
}

/// Every entry has at least one level and at most `max_level + 1`, and the
/// first one has them all.
spec fn heights_ok(entries: Seq<Entry>, max_level: int) -> bool {
    &&& forall|i: int| 0 <= i < entries.len() ==> 1 <= (#[trigger] entries[i]).height <= max_level + 1
    &&& entries.len() > 0 ==> entries[0].height == max_level + 1
}

/// Draws a boolean with `rand::random`, which takes it from the thread's
/// generator. Nothing is claimed of which one comes.
#[verifier::external_body]
fn random_bool() -> (b: bool) {
    rand::random::<bool>()
}

pub struct TransactionLog {
    nodes: Vec<Node>,
    head: Option<usize>,
    tail: Vec<Option<usize>>,
    max_level: usize,
    pub length: u64,
}

impl View for TransactionLog {
    type V = Seq<Entry>;

    /// The entries in the order of their arrival.
    closed spec fn view(&self) -> Seq<Entry> {
        entries_of(self.nodes@)
    }
}

impl TransactionLog {
    /// The value of the field `length`.
    pub closed spec fn count(&self) -> u64 {
        self.length
    }

    /// The value of the field `length`: in a well-formed log, the number
    /// of entries.
    pub fn len(&self) -> (n: u64)
        ensures
            n == self.count(),
    {
        self.length
    }

    /// The highest level of the log.
    pub closed spec fn top(&self) -> usize {
        self.max_level
    }

    /// `length` is the number of entries, the heights are within the
    /// log's levels, and on each of its levels each entry points to the
    /// next entry that stands there.
    pub closed spec fn well_formed(&self) -> bool {
        &&& self.length == self.nodes@.len()
        &&& self.max_level < usize::MAX
        &&& self.tail@.len() == self.max_level + 1
        &&& self.head == if self.nodes@.len() > 0 {
            Some(0usize)
        } else {
            None
        }
        &&& heights_ok(self@, self.max_level as int)
        &&& links_ok(self.nodes@, self@, self@, 0)
        &&& tail_ok(self.tail@, self@, self@, 0)
    }

    /// In a well-formed log `length` is the number of entries, and the
    /// heights are as the levels of the log allow.
    pub proof fn lemma_well_formed(&self)
        requires
            self.well_formed(),
        ensures
            self.count() == self@.len(),
            forall|i: int| 0 <= i < self@.len() ==> 1 <= (#[trigger] self@[i]).height <= self.top() + 1,
            self@.len() > 0 ==> self@[0].height == self.top() + 1,
    {
    }

    /// The highest level of the log.
    pub fn max_level(&self) -> (level: usize)
        ensures
            level == self.top(),
    {
        self.max_level
    }

    /// An empty log with the levels 0 to `max_level`.
    pub fn new_empty(max_level: usize) -> (log: TransactionLog)
        requires
            max_level < usize::MAX,
        ensures
            log.well_formed(),
            log@ == Seq::<Entry>::empty(),
            log.top() == max_level,
            log.count() == 0,
    {
        let mut tail: Vec<Option<usize>> = Vec::new();
        let mut i: usize = 0;
        while i < max_level + 1
            invariant
                max_level < usize::MAX,
                i <= max_level + 1,
                tail@.len() == i,
                forall|l: int| 0 <= l < i ==> (#[trigger] tail@[l]).is_none(),
            decreases max_level + 1 - i,
        {
            tail.push(None);
            i += 1;
        }
        let log = TransactionLog { nodes: Vec::new(), head: None, tail, max_level, length: 0 };
        proof {
            assert(log@ =~= Seq::<Entry>::empty());
        }
        log
    }

    /// Appends an entry. The first entry of a log gets every level; a
    /// later one gets one level, and one more for each time that a coin
    /// comes up heads, up to every level.
    pub fn append(&mut self, offset: u64, value: String)
        requires
            old(self).well_formed(),
            old(self).count() < u64::MAX,
        ensures
            final(self).well_formed(),
            final(self).top() == old(self).top(),
            final(self).count() == old(self).count() + 1,
            exists|height: nat|
                1 <= height <= old(self).top() + 1 && (old(self)@.len() == 0 ==> height == old(
                    self,
                ).top() + 1) && final(self)@ == old(self)@.push(
                    Entry { offset, command: value, height },
                ),
    {
        let level = 1 + if self.head.is_none() {
            self.max_level
        } else {
            self.get_level()
        };
        self.append_at_level(offset, value, level);
        proof {
            assert(self@ == old(self)@.push(Entry { offset, command: value, height: level as nat }));
        }
    }

    /// Appends an entry that stands on the levels below `level`.
    pub fn append_at_level(&mut self, offset: u64, value: String, level: usize)
        requires
            old(self).well_formed(),
            old(self).count() < u64::MAX,
            1 <= level <= old(self).top() + 1,
            old(self)@.len() == 0 ==> level == old(self).top() + 1,
        ensures
            final(self).well_formed(),
            final(self).top() == old(self).top(),
            final(self).count() == old(self).count() + 1,
            final(self)@ == old(self)@.push(Entry { offset, command: value, height: level as nat }),
    {
        let ghost before = self@;
        let ghost added = Entry { offset, command: value, height: level as nat };
        let ghost after = before.push(added);
        let place = self.nodes.len();
        let mut next: Vec<Option<usize>> = Vec::new();
        let mut i: usize = 0;
        while i < level
            invariant
                i <= level,
                next@.len() == i,
                forall|l: int| 0 <= l < i ==> (#[trigger] next@[l]).is_none(),
            decreases level - i,
        {
            next.push(None);
            i += 1;
        }
        let new = Node::new(next, offset, value);
        let mut i: usize = 0;
        while i < level
            invariant
                i <= level <= self.max_level + 1,
                place == self.nodes@.len(),
                place == before.len(),
                self.length == old(self).length,
                self.max_level == old(self).max_level,
                self.head == old(self).head,
                self.max_level < usize::MAX,
                self.tail@.len() == self.max_level + 1,
                entries_of(self.nodes@) == before,
                after == before.push(added),
                added.height == level,
                heights_ok(before, self.max_level as int),
                links_ok(self.nodes@, before, after, i as int),
                tail_ok(self.tail@, before, after, i as int),
            decreases level - i,
        {
            let ghost nodes_then = self.nodes@;
            let ghost tail_then = self.tail@;
            assert(is_last_on_level(before, i as int, self.tail@[i as int]));
            match self.tail[i] {
                Some(old) => {
                    let mut node = Node::new(Vec::new(), 0, String::new());
                    self.nodes.set_and_swap(old, &mut node);
                    node.next.set(i, Some(place));
                    self.nodes.set_and_swap(old, &mut node);
                    proof {
                        assert(entries_of(self.nodes@) =~= before) by {
                            assert forall|k: int| 0 <= k < before.len() implies entries_of(
                                self.nodes@,
                            )[k] == before[k] by {
                                assert(before[k] == nodes_then[k].entry());
                            }
                        }
                    }
                },
                None => {},
            }
            self.tail.set(i, Some(place));
            proof {
                assert forall|k: int, l: int|
                    0 <= k < self.nodes@.len() && 0 <= l < self.nodes@[k].next@.len() implies same_place(
                    #[trigger] self.nodes@[k].next@[l],
                    if l < i + 1 {
                        next_on_level(after, k, l)
                    } else {
                        next_on_level(before, k, l)
                    },
                ) by {
                    assert(same_place(
                        nodes_then[k].next@[l],
                        if l < i {
                            next_on_level(after, k, l)
                        } else {
                            next_on_level(before, k, l)
                        },
                    ));
                    if l == i {
                        lemma_next_after_push(before, added, k, l);
                        lemma_first_on_level(before, k + 1, l);
                        assert(before[k] == nodes_then[k].entry());
                    }
                }
                assert forall|l: int| 0 <= l < self.tail@.len() implies is_last_on_level(
                    if l < i + 1 {
                        after
                    } else {
                        before
                    },
                    l,
                    #[trigger] self.tail@[l],
                ) by {
                    assert(is_last_on_level(
                        if l < i {
                            after
                        } else {
                            before
                        },
                        l,
                        tail_then[l],
                    ));
                }
            }
            i += 1;
        }
        self.nodes.push(new);
        if self.head.is_none() {
            self.head = Some(place);
        }
        self.length += 1;
        proof {
            assert(self@ =~= after);
            assert(heights_ok(after, self.max_level as int));
            assert forall|k: int, l: int|
                0 <= k < self.nodes@.len() && 0 <= l < self.nodes@[k].next@.len() implies same_place(
                #[trigger] self.nodes@[k].next@[l],
                next_on_level(after, k, l),
            ) by {
                if k < place {
                    assert(before[k] == self.nodes@[k].entry());
                    if l >= level {
                        lemma_next_after_push(before, added, k, l);
                    }
                } else {
                    lemma_first_on_level_none(after, k + 1, l);
                }
            }
            assert forall|l: int| 0 <= l < self.tail@.len() implies is_last_on_level(
                after,
                l,
                #[trigger] self.tail@[l],
            ) by {
                if l >= level {
                    assert(is_last_on_level(before, l, self.tail@[l]));
                    assert forall|k: int| 0 <= k < after.len() && k >= before.len() implies (
                    #[trigger] after[k]).height <= l by {}
                }
            }
        }
    }

    /// The command of the entry with the offset `offset`, or `None` where
    /// the log has none. This holds of a log whose offsets grow from entry
    /// to entry, whatever levels its entries stand on.
    ///
    /// The search starts at the first entry on the highest level. On each
    /// level it goes on while the next entry there has an offset of at
    /// most `offset`, and it ends at the first entry reached in this way
    /// that has the offset. In a log whose offsets do not grow it may miss
    /// an entry, but it never returns the command of another offset.
    pub fn find(&self, offset: u64) -> (r: Option<String>)
        requires
            self.well_formed(),
        ensures
            ascending_offsets(self@) ==> r == command_at(self@, offset),
            match r {
                Some(command) => exists|k: int|
                    0 <= k < self@.len() && (#[trigger] self@[k]).offset == offset
                        && self@[k].command == command,
                None => true,
            },
            r == searched(self@, self.top() + 1, offset),
    {
        match self.head {
            Some(head) => {
                let ghost entries = self@;
                proof {
                    lemma_search_sound(entries, 0, self.max_level + 1, offset);
                    if ascending_offsets(entries) {
                        lemma_search_ascending(entries, 0, self.max_level + 1, offset);
                    }
                }
                let mut n = head;
                let mut result: Option<String> = None;
                let mut level = self.max_level + 1;
                while level > 0
                    invariant_except_break
                        result.is_none(),
                        search(entries, n as int, level as int, offset) == searched(
                            entries,
                            self.max_level + 1,
                            offset,
                        ),
                    invariant
                        self.well_formed(),
                        entries == self@,
                        n < entries.len(),
                        level <= self.max_level + 1,
                        entries[n as int].height >= level,
                    ensures
                        result == searched(entries, self.max_level + 1, offset),
                    decreases level,
                {
                    level -= 1;
                    let ghost from = n;
                    loop
                        invariant
                            self.well_formed(),
                            entries == self@,
                            n < entries.len(),
                            level <= self.max_level,
                            entries[n as int].height > level,
                            advance(entries, n as int, level as int, offset) == advance(
                                entries,
                                from as int,
                                level as int,
                                offset,
                            ),
                        ensures
                            n < entries.len(),
                            entries[n as int].height > level,
                            n == advance(entries, from as int, level as int, offset),
                        decreases entries.len() - n,
                    {
                        proof {
                            assert(entries[n as int] == self.nodes@[n as int].entry());
                            lemma_first_on_level(entries, n + 1, level as int);
                        }
                        match self.nodes[n].next[level] {
                            Some(next) => {
                                proof {
                                    assert(entries[next as int] == self.nodes@[next as int].entry());
                                }
                                if self.nodes[next].offset <= offset {
                                    n = next;
                                } else {
                                    break ;
                                }
                            },
                            None => {
                                break ;
                            },
                        }
                    }
                    proof {
                        assert(entries[n as int] == self.nodes@[n as int].entry());
                    }
                    if self.nodes[n].offset == offset {
                        result = Some(self.nodes[n].command.clone());
                        break ;
                    }
                }
                result
            },
            None => {
                proof {
                    assert(self@.len() == 0);
                }
                None
            },
        }
    }

    /// A copy of the nodes.
    fn copy_nodes(&self) -> (nodes: Vec<Node>)
        ensures
            nodes@.len() == self.nodes@.len(),
            forall|i: int|
                0 <= i < nodes@.len() ==> (#[trigger] nodes@[i]).next@ == self.nodes@[i].next@
                    && nodes@[i].entry() == self.nodes@[i].entry(),
    {
        let mut nodes: Vec<Node> = Vec::new();
        let mut i: usize = 0;
        while i < self.nodes.len()
            invariant
                i <= self.nodes@.len(),
                nodes@.len() == i,
                forall|k: int|
                    0 <= k < i ==> (#[trigger] nodes@[k]).next@ == self.nodes@[k].next@
                        && nodes@[k].entry() == self.nodes@[k].entry(),
            decreases self.nodes@.len() - i,
        {
            nodes.push(self.nodes[i].duplicate());
            i += 1;
        }
        nodes
    }

    /// The entries that stand on level `level`, from the first entry on.
    pub fn iter_level(&self, level: usize) -> (iter: ListIterator)
        requires
            self.well_formed(),
            level <= self.top(),
        ensures
            iter.well_formed(),
            iter@ == lane(
                self@,
                if self@.len() > 0 {
                    Some(0int)
                } else {
                    None
                },
                level as int,
            ),
    {
        let nodes = self.copy_nodes();
        proof {
            assert(entries_of(nodes@) =~= self@);
        }
        ListIterator::new(nodes, self.head, level)
    }

    /// All entries in the order of their arrival.
    pub fn into_iter(self) -> (iter: ListIterator)
        requires
            self.well_formed(),
        ensures
            iter.well_formed(),
            iter@ == lane(
                self@,
                if self@.len() > 0 {
                    Some(0int)
                } else {
                    None
                },
                0,
            ),
    {
        ListIterator::new(self.nodes, self.head, 0)
    }

    /// How many levels a new entry gets beyond the first: one for each
    /// time that a coin comes up heads, up to the highest level.
    fn get_level(&self) -> (n: usize)
        ensures
            n <= self.max_level,
    {
        let mut n: usize = 0;
        while Self::one_more(random_bool(), n, self.max_level)
            invariant
                n <= self.max_level,
            decreases self.max_level - n,
        {
            n += 1;
        }
        n
    }

    /// Whether an entry with `n` levels beyond the first gets one more
    /// after a coin that came up `heads`: only on heads, and only below
    /// the highest level.
    fn one_more(heads: bool, n: usize, max_level: usize) -> (more: bool)
        ensures
            more == (heads && n < max_level),
    {
        heads && n < max_level
    }
}

impl Clone for TransactionLog {
    /// A log of its own with the same entries.
    fn clone(&self) -> (copy: Self)
        ensures
            copy@ == self@,
            copy.top() == self.top(),
            copy.count() == self.count(),
            self.well_formed() ==> copy.well_formed(),
    {
        let nodes = self.copy_nodes();
        let mut tail: Vec<Option<usize>> = Vec::new();
        let mut i: usize = 0;
        while i < self.tail.len()
            invariant
                i <= self.tail@.len(),
                tail@ == self.tail@.take(i as int),
            decreases self.tail@.len() - i,
        {
            tail.push(self.tail[i]);
            proof {
                assert(self.tail@.take(i + 1) =~= self.tail@.take(i as int).push(self.tail@[i as int]));
            }
            i += 1;
        }
        proof {
            assert(self.tail@.take(i as int) =~= self.tail@);
            assert(entries_of(nodes@) =~= self@);
        }
        TransactionLog {
            nodes,
            head: self.head,
            tail,
            max_level: self.max_level,
            length: self.length,
        }
    }
}

/// A walk along one level of a log, from some entry to the last one that
/// stands on the level.
pub struct ListIterator {
    nodes: Vec<Node>,
    current: Option<usize>,
    level: usize,
}

impl View for ListIterator {
    type V = Seq<(u64, String)>;

    /// The offsets and commands still to come.
    closed spec fn view(&self) -> Seq<(u64, String)> {
        lane(
            entries_of(self.nodes@),
            match self.current {
                Some(at) => Some(at as int),
                None => None,
            },
            self.level as int,
        )
    }
}

impl ListIterator {
    /// The entry to come next exists and stands on the level of the walk,
    /// and on each of its levels each entry points to the next entry that
    /// stands there.
    pub closed spec fn well_formed(&self) -> bool {
        &&& links_ok(self.nodes@, entries_of(self.nodes@), entries_of(self.nodes@), 0)
        &&& match self.current {
            Some(at) => at < self.nodes@.len() && self.nodes@[at as int].next@.len() > self.level,
            None => true,
        }
    }

    fn new(nodes: Vec<Node>, start_at: Option<usize>, level: usize) -> (iter: ListIterator)
        requires
            links_ok(nodes@, entries_of(nodes@), entries_of(nodes@), 0),
            match start_at {
                Some(at) => at < nodes@.len() && nodes@[at as int].next@.len() > level,
                None => true,
            },
        ensures
            iter.well_formed(),
            iter@ == lane(
                entries_of(nodes@),
                match start_at {
                    Some(at) => Some(at as int),
                    None => None,
                },
                level as int,
            ),
    {
        ListIterator { nodes, current: start_at, level }
    }

    /// The offset and the command of the entry that comes next, or `None`
    /// at the end of the level.
    pub fn next(&mut self) -> (r: Option<(u64, String)>)
        requires
            old(self).well_formed(),
        ensures
            final(self).well_formed(),
            match r {
                Some(item) => old(self)@.len() > 0 && item == old(self)@[0] && final(self)@ == old(
                    self,
                )@.drop_first(),
                None => old(self)@.len() == 0 && final(self)@ == old(self)@,
            },
    {
        let ghost entries = entries_of(self.nodes@);
        match self.current {
            Some(at) => {
                let result = (self.nodes[at].offset, self.nodes[at].command.clone());
                let following = self.nodes[at].next[self.level];
                proof {
                    assert(entries[at as int] == self.nodes@[at as int].entry());
                    lemma_first_on_level(entries, at + 1, self.level as int);
                    assert(same_place(following, next_on_level(entries, at as int, self.level as int)));
                    if following.is_some() {
                        let j = following.unwrap() as int;
                        assert(entries[j] == self.nodes@[j].entry());
                    }
                    let rest = lane(
                        entries,
                        match following {
                            Some(j) => Some(j as int),
                            None => None,
                        },
                        self.level as int,
                    );
                    assert(old(self)@ == seq![(entries[at as int].offset, entries[at as int].command)]
                        + rest);
                    assert(old(self)@.drop_first() =~= rest);
                }
                self.current = following;
                Some(result)
            },
            None => None,
        }
    }
}

} // verus!
