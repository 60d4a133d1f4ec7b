//! The mathematical model of the device graph: identifiers, adjacency,
//! walks and their costs. Every contract of the graph is stated over it.

use vstd::prelude::*;

verus! {

/// One outgoing edge: its cost and the row of the node it leads to.
#[derive(Clone, Copy, Debug, PartialEq, Eq)]
pub struct Edge {
    pub weight: u32,
    pub node: usize,
}

/// One step of a walk: the row it leaves, and which of that row's edges
/// it takes.
pub type Step = (int, int);

/// A graph as plain values: `nodes[i]` is the identifier of row `i`, and
/// `adjacency[i]` holds the edges that leave row `i`, in order.
pub struct Graph {
    pub nodes: Seq<u64>,
    pub adjacency: Seq<Seq<Edge>>,
}

/// `i` is the first position of `id` in `s`.
pub open spec fn is_first_index(s: Seq<u64>, id: u64, i: int) -> bool {
    &&& 0 <= i < s.len()
    &&& s[i] == id
    &&& forall|j: int| 0 <= j < i ==> s[j] != id
}

/// The first position of `id` in `s`, if it occurs at all.
pub open spec fn position(s: Seq<u64>, id: u64) -> Option<int> {
    if exists|i: int| is_first_index(s, id, i) {
        Some(choose|i: int| is_first_index(s, id, i))
    } else {
        None
    }
}

/// The number of edges in all rows together.
pub open spec fn total_len(adjacency: Seq<Seq<Edge>>) -> nat
    decreases adjacency.len(),
{
    if adjacency.len() == 0 {
        0
    } else {
        total_len(adjacency.drop_last()) + adjacency.last().len()
    }
}

impl Graph {
    /// Both sequences have one entry per node, and every edge leads to a
    /// row that exists.
    pub open spec fn well_formed(self) -> bool {
        &&& self.nodes.len() == self.adjacency.len()
        &&& forall|u: int, k: int|
            0 <= u < self.adjacency.len() && 0 <= k < self.adjacency[u].len()
                ==> (#[trigger] self.adjacency[u][k]).node < self.nodes.len()
    }

    /// The row that a lookup of `id` finds: the first one that carries it.
    pub open spec fn index_of(self, id: u64) -> Option<int> {
        position(self.nodes, id)
    }

    pub open spec fn node_count(self) -> nat {
        self.nodes.len()
    }

    pub open spec fn edge_count(self) -> nat {
        total_len(self.adjacency)
    }

    /// The edges that a registration keeps: each pair whose identifier is
    /// known, in the order given, with the identifier replaced by its row.
    /// Pairs with an unknown identifier are left out.
    pub open spec fn resolve(self, edges: Seq<(u32, u64)>) -> Seq<Edge>
        decreases edges.len(),
    {
        if edges.len() == 0 {
            Seq::empty()
        } else {
            let rest = self.resolve(edges.drop_last());
            match self.index_of(edges.last().1) {
                Some(i) => rest.push(Edge { weight: edges.last().0, node: i as usize }),
                None => rest,
            }
        }
    }

    /// The graph with the identifiers `ids` and no edge at all.
    pub open spec fn with_nodes(ids: Seq<u64>) -> Graph {
        Graph { nodes: ids, adjacency: Seq::new(ids.len(), |i: int| Seq::<Edge>::empty()) }
    }

    /// The graph after the edges of `from` are registered: the resolved
    /// list replaces the list of the row of `from`, or comes with a new
    /// last row where `from` was unknown.
    pub open spec fn with_edges(self, from: u64, edges: Seq<(u32, u64)>) -> Graph {
        let resolved = self.resolve(edges);
        match self.index_of(from) {
            Some(i) => Graph { nodes: self.nodes, adjacency: self.adjacency.update(i, resolved) },
            None => Graph {
                nodes: self.nodes.push(from),
                adjacency: self.adjacency.push(resolved),
            },
        }
    }

    /// `s` names an edge of the graph.
    pub open spec fn is_step(self, s: Step) -> bool {
        &&& 0 <= s.0 < self.adjacency.len()
        &&& 0 <= s.1 < self.adjacency[s.0].len()
    }

    /// The row that the edge named by `s` leads to.
    pub open spec fn target(self, s: Step) -> int {
        self.adjacency[s.0][s.1].node as int
    }

    /// An edge leads from row `a` to row `b`.
    pub open spec fn hop(self, a: int, b: int) -> bool {
        exists|k: int| #[trigger] self.is_step((a, k)) && self.target((a, k)) == b
    }

    /// `w` is a walk from row `from` to row `to`: a chain of edges, each
    /// leaving the row that the one before it reached. The empty walk
    /// stays where it is.
    pub open spec fn is_walk(self, from: int, w: Seq<Step>, to: int) -> bool {
        &&& 0 <= from < self.nodes.len()
        &&& forall|i: int| 0 <= i < w.len() ==> self.is_step(#[trigger] w[i])
        &&& forall|i: int| 0 < i < w.len() ==> self.target(w[i - 1]) == (#[trigger] w[i]).0
        &&& if w.len() == 0 {
            to == from
        } else {
            w[0].0 == from && self.target(w.last()) == to
        }
    }

    /// The sum of the weights along `w`.
    pub open spec fn cost(self, w: Seq<Step>) -> nat
        decreases w.len(),
    {
        if w.len() == 0 {
            0
        } else {
            self.cost(w.drop_last()) + self.adjacency[w.last().0][w.last().1].weight as nat
        }
    }

    /// The identifiers that `w` visits, its start `from` included.
    pub open spec fn ids_along(self, from: int, w: Seq<Step>) -> Seq<u64> {
        Seq::new(
            w.len() + 1,
            |i: int|
                if i == 0 {
                    self.nodes[from]
                } else {
                    self.nodes[self.target(w[i - 1])]
                },
        )
    }

    /// Row `to` can be reached from row `from` over at least one and at
    /// most `degree` edges.
    pub open spec fn within(self, from: int, to: int, degree: nat) -> bool {
        exists|w: Seq<Step>| 1 <= w.len() <= degree && #[trigger] self.is_walk(from, w, to)
    }

    /// The identifiers of the rows within `degree` edges of row `from`.
    pub open spec fn connected_ids(self, from: int, degree: nat) -> Set<u64> {
        Set::new(
            |id: u64|
                exists|j: int|
                    0 <= j < self.nodes.len() && #[trigger] self.within(from, j, degree)
                        && self.nodes[j] == id,
        )
    }

    /// `path` names the nodes along a walk from row `from` to row `to`
    /// whose cost is `cost`, and no walk between the two costs less.
    pub open spec fn is_cheapest_route(self, from: int, to: int, cost: nat, path: Seq<u64>) -> bool {
        &&& exists|w: Seq<Step>| #[trigger]
            self.is_walk(from, w, to) && self.cost(w) == cost && self.ids_along(from, w) == path
        &&& forall|w: Seq<Step>| #[trigger] self.is_walk(from, w, to) ==> cost <= self.cost(w)
    }

    /// Every walk from row `from` to row `to` costs more than 32 bits hold;
    /// in particular, where there is no walk at all.
    pub open spec fn no_route(self, from: int, to: int) -> bool {
        forall|w: Seq<Step>| #[trigger] self.is_walk(from, w, to) ==> self.cost(w) > u32::MAX
    }
}

/// Replacing one row changes the number of edges by the difference of the
/// two rows.
pub proof fn lemma_total_len_update(adjacency: Seq<Seq<Edge>>, i: int, row: Seq<Edge>)
    requires
        0 <= i < adjacency.len(),
    ensures
        total_len(adjacency.update(i, row)) == total_len(adjacency) - adjacency[i].len()
            + row.len(),
    decreases adjacency.len(),
{
    let changed = adjacency.update(i, row);
    if i == adjacency.len() - 1 {
        assert(changed.drop_last() =~= adjacency.drop_last());
    } else {
        assert(changed.drop_last() =~= adjacency.drop_last().update(i, row));
        lemma_total_len_update(adjacency.drop_last(), i, row);
    }
}

/// Registering edges adds the kept ones to the number of edges, and takes
/// away those that the node had before.
pub proof fn lemma_with_edges_edge_count(g: Graph, from: u64, edges: Seq<(u32, u64)>)
    requires
        g.well_formed(),
    ensures
        g.with_edges(from, edges).edge_count() == g.edge_count() + g.resolve(edges).len() - (
        match g.index_of(from) {
            Some(i) => g.adjacency[i].len(),
            None => 0,
        }),
        g.with_edges(from, edges).edge_count() <= g.edge_count() + edges.len(),
{
    lemma_position(g.nodes, from);
    lemma_resolve_in_range(g, edges);
    match g.index_of(from) {
        Some(i) => {
            lemma_total_len_update(g.adjacency, i, g.resolve(edges));
        },
        None => {
            assert(g.adjacency.push(g.resolve(edges)).drop_last() =~= g.adjacency);
        },
    }
}

/// At most one position is the first position of `id`.
pub proof fn lemma_first_index_unique(s: Seq<u64>, id: u64, i: int, j: int)
    requires
        is_first_index(s, id, i),
        is_first_index(s, id, j),
    ensures
        i == j,
{
}

/// `position` finds the first position, and finds none only where `id`
/// does not occur.
pub proof fn lemma_position(s: Seq<u64>, id: u64)
    ensures
        match position(s, id) {
            Some(i) => is_first_index(s, id, i),
            None => forall|j: int| 0 <= j < s.len() ==> s[j] != id,
        },
{
    if exists|i: int| is_first_index(s, id, i) {
    } else {
        assert forall|j: int| 0 <= j < s.len() implies s[j] != id by {
            lemma_no_first_no_occurrence(s, id, j);
        }
    }
}

proof fn lemma_no_first_no_occurrence(s: Seq<u64>, id: u64, j: int)
    requires
        0 <= j < s.len(),
        !exists|i: int| is_first_index(s, id, i),
    ensures
        s[j] != id,
    decreases j,
{
    if s[j] == id {
        if forall|k: int| 0 <= k < j ==> s[k] != id {
            assert(is_first_index(s, id, j));
        } else {
            let k = choose|k: int| 0 <= k < j && s[k] == id;
            lemma_no_first_no_occurrence(s, id, k);
        }
    }
}

/// Where `i` is the first position of `id`, `position` returns it.
pub proof fn lemma_position_is(s: Seq<u64>, id: u64, i: int)
    requires
        is_first_index(s, id, i),
    ensures
        position(s, id) == Some(i),
{
    lemma_position(s, id);
    lemma_first_index_unique(s, id, i, position(s, id).unwrap());
}

/// Every resolved edge leads to a row of the graph.
pub proof fn lemma_resolve_in_range(g: Graph, edges: Seq<(u32, u64)>)
    ensures
        g.resolve(edges).len() <= edges.len(),
        forall|k: int|
            0 <= k < g.resolve(edges).len() ==> (#[trigger] g.resolve(edges)[k]).node
                < g.nodes.len(),
    decreases edges.len(),
{
    if edges.len() > 0 {
        lemma_resolve_in_range(g, edges.drop_last());
        lemma_position(g.nodes, edges.last().1);
    }
}

/// Registering edges keeps a graph well formed.
pub proof fn lemma_with_edges_well_formed(g: Graph, from: u64, edges: Seq<(u32, u64)>)
    requires
        g.well_formed(),
    ensures
        g.with_edges(from, edges).well_formed(),
{
    let after = g.with_edges(from, edges);
    lemma_resolve_in_range(g, edges);
    lemma_position(g.nodes, from);
    assert forall|u: int, k: int|
        0 <= u < after.adjacency.len() && 0 <= k < after.adjacency[u].len() implies (
    #[trigger] after.adjacency[u][k]).node < after.nodes.len() by {
        if after.adjacency[u] != g.resolve(edges) {
            assert(after.adjacency[u] == g.adjacency[u]);
            assert(g.adjacency[u][k].node < g.nodes.len());
        }
    }
}

/// What a lookup finds among the identifiers does not change when another
/// identifier is added at the end.
pub proof fn lemma_position_push(s: Seq<u64>, added: u64, id: u64)
    requires
        id != added,
    ensures
        position(s.push(added), id) == position(s, id),
{
    let longer = s.push(added);
    lemma_position(s, id);
    lemma_position(longer, id);
    match position(s, id) {
        Some(i) => {
            assert(longer[i] == s[i]);
            assert forall|j: int| 0 <= j < i implies longer[j] != id by {
                assert(longer[j] == s[j]);
            }
            lemma_position_is(longer, id, i);
        },
        None => {
            if position(longer, id).is_some() {
                let i = position(longer, id).unwrap();
                assert(longer[i] == id);
                assert(i < s.len());
                assert(longer[i] == s[i]);
            }
        },
    }
}

/// Which edges a registration keeps depends on the identifiers alone.
pub proof fn lemma_resolve_same_nodes(g: Graph, h: Graph, edges: Seq<(u32, u64)>)
    requires
        g.nodes == h.nodes,
    ensures
        g.resolve(edges) == h.resolve(edges),
    decreases edges.len(),
{
    if edges.len() > 0 {
        lemma_resolve_same_nodes(g, h, edges.drop_last());
    }
}

/// A new last identifier that no pair names changes nothing about the
/// edges that a registration keeps.
pub proof fn lemma_resolve_push(g: Graph, h: Graph, added: u64, edges: Seq<(u32, u64)>)
    requires
        h.nodes == g.nodes.push(added),
        forall|k: int| 0 <= k < edges.len() ==> (#[trigger] edges[k]).1 != added,
    ensures
        g.resolve(edges) == h.resolve(edges),
    decreases edges.len(),
{
    if edges.len() > 0 {
        let rest = edges.drop_last();
        assert forall|k: int| 0 <= k < rest.len() implies (#[trigger] rest[k]).1 != added by {
            assert(rest[k] == edges[k]);
        }
        lemma_resolve_push(g, h, added, rest);
        assert(edges.last() == edges[edges.len() - 1]);
        lemma_position_push(g.nodes, added, edges.last().1);
    }
}

/// Registering the same edges of the same node a second time changes
/// nothing, provided that the node was known before the first time or
/// that none of the pairs names the node itself. (A pair that names a
/// node unknown until then is dropped the first time and kept the second.)
pub proof fn lemma_with_edges_idempotent(g: Graph, from: u64, edges: Seq<(u32, u64)>)
    requires
        g.well_formed(),
        g.index_of(from).is_some() || forall|k: int|
            0 <= k < edges.len() ==> (#[trigger] edges[k]).1 != from,
    ensures
        g.with_edges(from, edges).with_edges(from, edges) == g.with_edges(from, edges),
{
    let once = g.with_edges(from, edges);
    let twice = once.with_edges(from, edges);
    lemma_position(g.nodes, from);
    match g.index_of(from) {
        Some(i) => {
            lemma_resolve_same_nodes(g, once, edges);
            assert(twice.adjacency =~= once.adjacency);
        },
        None => {
            lemma_resolve_push(g, once, from, edges);
            let n = g.nodes.len() as int;
            assert(once.nodes[n] == from);
            assert forall|j: int| 0 <= j < n implies once.nodes[j] != from by {
                assert(once.nodes[j] == g.nodes[j]);
            }
            lemma_position_is(once.nodes, from, n);
            assert(twice.adjacency =~= once.adjacency);
        },
    }
}

/// After the nodes are replaced, there are as many nodes as identifiers
/// were given, and no node has an edge.
pub proof fn lemma_with_nodes_counts(ids: Seq<u64>)
    ensures
        Graph::with_nodes(ids).well_formed(),
        Graph::with_nodes(ids).node_count() == ids.len(),
        forall|i: int|
            0 <= i < ids.len() ==> (#[trigger] Graph::with_nodes(ids).adjacency[i]).len() == 0,
{
}

/// Registering the edges of an unknown node adds exactly one node, with
/// the kept edges as its list; registering those of a known node adds
/// none and replaces the list of its row by the kept edges.
pub proof fn lemma_with_edges_counts(g: Graph, from: u64, edges: Seq<(u32, u64)>)
    requires
        g.well_formed(),
    ensures
        match g.index_of(from) {
            Some(i) => {
                &&& g.with_edges(from, edges).node_count() == g.node_count()
                &&& g.with_edges(from, edges).adjacency[i] == g.resolve(edges)
                &&& forall|j: int|
                    0 <= j < g.adjacency.len() && j != i ==> #[trigger] g.with_edges(
                        from,
                        edges,
                    ).adjacency[j] == g.adjacency[j]
            },
            None => {
                &&& g.with_edges(from, edges).node_count() == g.node_count() + 1
                &&& g.with_edges(from, edges).nodes.last() == from
                &&& g.with_edges(from, edges).adjacency.last() == g.resolve(edges)
                &&& forall|j: int|
                    0 <= j < g.adjacency.len() ==> #[trigger] g.with_edges(from, edges).adjacency[j]
                        == g.adjacency[j]
            },
        },
{
    lemma_position(g.nodes, from);
}

/// A walk without its last edge is a walk to the row that this edge leaves.
pub proof fn lemma_walk_drop_last(g: Graph, from: int, w: Seq<Step>, to: int)
    requires
        g.is_walk(from, w, to),
        w.len() > 0,
    ensures
        g.is_walk(from, w.drop_last(), w.last().0),
        g.is_step(w.last()),
        g.target(w.last()) == to,
        0 <= w.last().0 < g.adjacency.len(),
{
    let v = w.drop_last();
    assert forall|i: int| 0 <= i < v.len() implies g.is_step(#[trigger] v[i]) by {
        assert(v[i] == w[i]);
    }
    assert forall|i: int| 0 < i < v.len() implies g.target(v[i - 1]) == (#[trigger] v[i]).0 by {
        assert(v[i] == w[i]);
        assert(v[i - 1] == w[i - 1]);
    }
    if v.len() > 0 {
        assert(v[0] == w[0]);
        assert(v.last() == w[w.len() - 2]);
        assert(g.target(w[w.len() - 1 - 1]) == w[w.len() - 1].0);
    }
}

/// A walk followed by an edge that leaves the row it reached is a walk to
/// that edge's target.
pub proof fn lemma_walk_push(g: Graph, from: int, w: Seq<Step>, mid: int, s: Step)
    requires
        g.is_walk(from, w, mid),
        g.is_step(s),
        s.0 == mid,
    ensures
        g.is_walk(from, w.push(s), g.target(s)),
        g.cost(w.push(s)) == g.cost(w) + g.adjacency[s.0][s.1].weight,
{
    let v = w.push(s);
    assert(v.drop_last() == w);
    assert forall|i: int| 0 <= i < v.len() implies g.is_step(#[trigger] v[i]) by {
        if i < w.len() {
            assert(v[i] == w[i]);
        }
    }
    assert forall|i: int| 0 < i < v.len() implies g.target(v[i - 1]) == (#[trigger] v[i]).0 by {
        if i < w.len() {
            assert(v[i] == w[i]);
            assert(v[i - 1] == w[i - 1]);
        } else {
            assert(v[i - 1] == w.last());
        }
    }
    if w.len() > 0 {
        assert(v[0] == w[0]);
    }
}

/// Reaching a row within `degree + 1` edges means: an edge leads there from
/// the start, or from a row within `degree` edges of the start.
pub proof fn lemma_within_step(g: Graph, from: int, to: int, degree: nat)
    requires
        g.well_formed(),
        0 <= from < g.nodes.len(),
    ensures
        g.within(from, to, degree + 1) <==> (g.hop(from, to) || exists|m: int|
            0 <= m < g.nodes.len() && #[trigger] g.within(from, m, degree) && g.hop(m, to)),
{
    if g.within(from, to, degree + 1) {
        let w = choose|w: Seq<Step>| 1 <= w.len() <= degree + 1 && #[trigger] g.is_walk(from, w, to);
        lemma_walk_drop_last(g, from, w, to);
        let m = w.last().0;
        assert(g.is_step((m, w.last().1)));
        assert(g.hop(m, to));
        if w.len() == 1 {
            assert(m == from);
        } else {
            assert(g.is_walk(from, w.drop_last(), m));
            assert(g.within(from, m, degree));
        }
    }
    if g.hop(from, to) {
        let k = choose|k: int| #[trigger] g.is_step((from, k)) && g.target((from, k)) == to;
        let empty = Seq::<Step>::empty();
        assert(g.is_walk(from, empty, from));
        lemma_walk_push(g, from, empty, from, (from, k));
        assert(g.is_walk(from, empty.push((from, k)), to));
        assert(g.within(from, to, degree + 1));
    }
    if exists|m: int|
        0 <= m < g.nodes.len() && #[trigger] g.within(from, m, degree) && g.hop(m, to) {
        let m = choose|m: int|
            0 <= m < g.nodes.len() && #[trigger] g.within(from, m, degree) && g.hop(m, to);
        let w = choose|w: Seq<Step>| 1 <= w.len() <= degree && #[trigger] g.is_walk(from, w, m);
        let k = choose|k: int| #[trigger] g.is_step((m, k)) && g.target((m, k)) == to;
        lemma_walk_push(g, from, w, m, (m, k));
        assert(g.is_walk(from, w.push((m, k)), to));
        assert(g.within(from, to, degree + 1));
    }
}

/// A set of rows that holds every target of an edge from the start, and
/// with a row every target of its edges, holds the end of every walk of at
/// least one edge.
pub proof fn lemma_walk_stays_in_closed(
    g: Graph,
    from: int,
    w: Seq<Step>,
    to: int,
    closed: Seq<bool>,
)
    requires
        g.well_formed(),
        closed.len() == g.nodes.len(),
        g.is_walk(from, w, to),
        w.len() >= 1,
        forall|j: int| 0 <= j < g.nodes.len() && g.hop(from, j) ==> #[trigger] closed[j],
        forall|m: int, j: int|
            0 <= m < g.nodes.len() && 0 <= j < g.nodes.len() && closed[m] && #[trigger] g.hop(m, j)
                ==> closed[j],
    ensures
        0 <= to < g.nodes.len(),
        closed[to],
    decreases w.len(),
{
    lemma_walk_drop_last(g, from, w, to);
    let m = w.last().0;
    assert(g.is_step((m, w.last().1)));
    assert(g.adjacency[m][w.last().1].node < g.nodes.len());
    assert(g.hop(m, to));
    if w.len() > 1 {
        lemma_walk_stays_in_closed(g, from, w.drop_last(), m, closed);
    }
}

/// With no edge to follow, nothing is reached.
pub proof fn lemma_connected_zero_empty(g: Graph, from: int)
    ensures
        g.connected_ids(from, 0) == Set::<u64>::empty(),
{
    assert(g.connected_ids(from, 0) =~= Set::<u64>::empty());
}

/// What is reached within some number of edges is reached within any
/// greater number.
pub proof fn lemma_connected_monotonic(g: Graph, from: int, small: nat, large: nat)
    requires
        small <= large,
    ensures
        g.connected_ids(from, small).subset_of(g.connected_ids(from, large)),
{
    assert forall|id: u64| g.connected_ids(from, small).contains(id) implies g.connected_ids(
        from,
        large,
    ).contains(id) by {
        let j = choose|j: int|
            0 <= j < g.nodes.len() && #[trigger] g.within(from, j, small) && g.nodes[j] == id;
        let w = choose|w: Seq<Step>| 1 <= w.len() <= small && #[trigger] g.is_walk(from, w, j);
        assert(g.within(from, j, large));
    }
}

} // verus!
