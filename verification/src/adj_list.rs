//! A weighted directed graph whose nodes are named by 64-bit identifiers.
//!
//! Nodes are stored in rows; a lookup of an identifier finds the first row
//! that carries it. Edges are stored per row with the row of their target
//! already resolved.

use crate::graph_model::{
    lemma_connected_zero_empty, lemma_position, lemma_position_is, lemma_resolve_in_range,
    lemma_walk_stays_in_closed, lemma_with_edges_well_formed, lemma_within_step, total_len, Edge,
    Graph, Step,
};
use crate::search::{
    found_route, lemma_extract, lemma_relax_from_step, lemma_relax_skip, lemma_relax_update,
    lemma_row_done, lemma_run_step, lemma_search_start, lemma_selected_is_final, search_inv,
    search_start, SearchState,
};
use crate::tentative::TentativeWeight;
use std::collections::HashSet;
use vstd::prelude::*;

verus! {

/// The graph: for each row the identifier of its node and the edges that
/// leave it. The two vectors have one entry per row, and every edge leads
/// to a row that exists.
pub struct InternetOfThings {
    adjacency_list: Vec<Vec<Edge>>,
    nodes: Vec<u64>,
}

impl View for InternetOfThings {
    type V = Graph;

    /// The graph as plain values.
    closed spec fn view(&self) -> Graph {
        Graph {
            nodes: self.nodes@,
            adjacency: Seq::new(
                self.adjacency_list@.len(),
                |i: int| self.adjacency_list@[i]@,
            ),
        }
    }
}

/// The number of edges in the first `i` rows grows with `i`.
proof fn lemma_total_len_take(adjacency: Seq<Seq<Edge>>, i: int)
    requires
        0 <= i <= adjacency.len(),
    ensures
        total_len(adjacency.take(i)) <= total_len(adjacency),
        i < adjacency.len() ==> total_len(adjacency.take(i + 1)) == total_len(adjacency.take(i))
            + adjacency[i].len(),
    decreases adjacency.len() - i,
{
    if i < adjacency.len() {
        assert(adjacency.take(i + 1).drop_last() == adjacency.take(i));
        lemma_total_len_take(adjacency, i + 1);
    } else {
        assert(adjacency.take(i) == adjacency);
    }
}

impl InternetOfThings {
    #[verifier::type_invariant]
    spec fn inv(&self) -> bool {
        self@.well_formed()
    }

    /// A graph without nodes.
    pub fn new() -> (g: InternetOfThings)
        ensures
            g@.nodes.len() == 0,
            g@.adjacency.len() == 0,
            g@.well_formed(),
    {
        InternetOfThings { adjacency_list: Vec::new(), nodes: Vec::new() }
    }

    /// Replaces the nodes by `nodes`, in this order, and leaves every node
    /// without edges.
    pub fn set_nodes(&mut self, nodes: Vec<u64>)
        ensures
            final(self)@ == Graph::with_nodes(nodes@),
            final(self)@.node_count() == nodes@.len(),
            final(self)@.edge_count() == 0,
            final(self)@.well_formed(),
    {
        let n = nodes.len();
        let mut rows: Vec<Vec<Edge>> = Vec::new();
        let mut i: usize = 0;
        while i < n
            invariant
                i <= n,
                rows@.len() == i,
                forall|j: int| 0 <= j < i ==> (#[trigger] rows@[j])@ == Seq::<Edge>::empty(),
            decreases n - i,
        {
            rows.push(Vec::new());
            i += 1;
        }
        let ghost model = Graph::with_nodes(nodes@);
        *self = InternetOfThings { adjacency_list: rows, nodes };
        proof {
            assert(self@.adjacency =~= model.adjacency);
            lemma_total_len_empty_rows(model.adjacency);
        }
    }

    /// The number of edges of all nodes together, which has to fit in 64
    /// bits.
    pub fn edges(&self) -> (total: u64)
        requires
            self@.edge_count() <= u64::MAX,
        ensures
            total == self@.edge_count(),
    {
        let mut total: u64 = 0;
        let mut i: usize = 0;
        while i < self.adjacency_list.len()
            invariant
                i <= self.adjacency_list@.len(),
                self@.adjacency.len() == self.adjacency_list@.len(),
                total == total_len(self@.adjacency.take(i as int)),
                total_len(self@.adjacency) <= u64::MAX,
            decreases self.adjacency_list@.len() - i,
        {
            proof {
                lemma_total_len_take(self@.adjacency, i as int);
                lemma_total_len_take(self@.adjacency, i + 1);
            }
            total = total + self.adjacency_list[i].len() as u64;
            i += 1;
        }
        proof {
            assert(self@.adjacency.take(i as int) == self@.adjacency);
        }
        total
    }

    /// The number of nodes.
    pub fn nodes(&self) -> (n: usize)
        ensures
            n == self@.node_count(),
            self@.well_formed(),
    {
        proof {
            use_type_invariant(self);
        }
        self.nodes.len()
    }

    /// Registers the outgoing edges of `from`. Each pair is a weight and
    /// the identifier of a target; pairs whose target is unknown at this
    /// moment are dropped. A known `from` has its edges replaced, an
    /// unknown one becomes a new last node.
    pub fn set_edges(&mut self, from: u64, edges: Vec<(u32, u64)>)
        ensures
            final(self)@ == old(self)@.with_edges(from, edges@),
            final(self)@.well_formed(),
            old(self)@.index_of(from).is_some() ==> final(self)@.node_count() == old(
                self,
            )@.node_count(),
            old(self)@.index_of(from).is_none() ==> final(self)@.node_count() == old(
                self,
            )@.node_count() + 1,
    {
        proof {
            use_type_invariant(&*self);
        }
        let mut resolved: Vec<Edge> = Vec::new();
        let mut k: usize = 0;
        while k < edges.len()
            invariant
                k <= edges@.len(),
                resolved@ == self@.resolve(edges@.take(k as int)),
            decreases edges@.len() - k,
        {
            let e = edges[k];
            proof {
                assert(edges@.take(k + 1).drop_last() == edges@.take(k as int));
            }
            match self.get_node_index(e.1) {
                Some(to) => {
                    resolved.push(Edge { weight: e.0, node: to });
                },
                None => {},
            }
            k += 1;
        }
        proof {
            assert(edges@.take(k as int) == edges@);
            lemma_resolve_in_range(self@, edges@);
        }
        let ghost before = self@;
        let ghost after = before.with_edges(from, edges@);
        let found = self.get_node_index(from);
        let mut taken = InternetOfThings::new();
        core::mem::swap(self, &mut taken);
        let InternetOfThings { adjacency_list: mut rows, nodes: mut nodes } = taken;
        match found {
            Some(i) => {
                rows.set(i, resolved);
            },
            None => {
                nodes.push(from);
                rows.push(resolved);
            },
        }
        proof {
            let built = Graph {
                nodes: nodes@,
                adjacency: Seq::new(rows@.len(), |i: int| rows@[i]@),
            };
            lemma_position(before.nodes, from);
            assert(built.adjacency =~= after.adjacency);
            assert(built.nodes =~= after.nodes);
            lemma_with_edges_well_formed(before, from, edges@);
        }
        *self = InternetOfThings { adjacency_list: rows, nodes };
    }

    /// The identifiers of the nodes that can be reached from `from` over
    /// at least one and at most `degree` edges, or `None` where `from` is
    /// unknown. `from` itself is among them only where a walk leads back
    /// to it.
    pub fn connected(&self, from: u64, degree: usize) -> (r: Option<HashSet<u64>>)
        ensures
            match r {
                Some(found) => self@.index_of(from).is_some() && found@ == self@.connected_ids(
                    self@.index_of(from).unwrap(),
                    degree as nat,
                ),
                None => self@.index_of(from).is_none(),
            },
            degree == 0 && r.is_some() ==> r.unwrap()@ == Set::<u64>::empty(),
    {
        broadcast use vstd::std_specs::hash::group_hash_axioms;

        match self.get_node_index(from) {
            None => None,
            Some(i) => {
                let reached = self.connected_r(i, degree);
                let mut found: HashSet<u64> = HashSet::new();
                let mut j: usize = 0;
                while j < reached.len()
                    invariant
                        j <= reached@.len(),
                        reached@.len() == self.nodes@.len(),
                        self.nodes@ == self@.nodes,
                        forall|id: u64|
                            found@.contains(id) <==> exists|t: int|
                                0 <= t < j && #[trigger] reached@[t] && self.nodes@[t] == id,
                    decreases reached@.len() - j,
                {
                    if reached[j] {
                        found.insert(self.nodes[j]);
                    }
                    j += 1;
                }
                proof {
                    lemma_connected_zero_empty(self@, i as int);
                    let want = self@.connected_ids(i as int, degree as nat);
                    assert forall|id: u64| found@.contains(id) <==> want.contains(id) by {
                        if found@.contains(id) {
                            let t = choose|t: int|
                                0 <= t < j && #[trigger] reached@[t] && self.nodes@[t] == id;
                            assert(self@.within(i as int, t, degree as nat));
                        }
                        if want.contains(id) {
                            let t = choose|t: int|
                                0 <= t < self@.nodes.len() && #[trigger] self@.within(
                                    i as int,
                                    t,
                                    degree as nat,
                                ) && self@.nodes[t] == id;
                            assert(reached@[t]);
                        }
                    }
                    assert(found@ =~= want);
                }
                Some(found)
            },
        }
    }

    /// The lowest cost of a walk from `from` to `to`, with the identifiers
    /// along one walk of that cost, from `from` to `to`. `None` where one
    /// of the two is unknown, where no walk leads from `from` to `to`, and
    /// where every such walk costs more than 32 bits hold. A node reaches
    /// itself at cost 0.
    ///
    /// Which of several walks of the lowest cost is returned is settled by
    /// the search: in each round the open row of least tentative distance
    /// is selected, the earliest in the open set among equals; its edges
    /// are looked at in their order, and an edge gives its target a new
    /// parent only where it lowers the target's distance. The search ends
    /// when the row of `to` is selected. A cost that 32 bits do not hold
    /// counts as infinite.
    pub fn shorted_path(&self, from: u64, to: u64) -> (r: Option<(u32, Vec<u64>)>)
        ensures
            match r {
                Some((cost, path)) => {
                    &&& self@.index_of(from).is_some()
                    &&& self@.index_of(to).is_some()
                    &&& self@.is_cheapest_route(
                        self@.index_of(from).unwrap(),
                        self@.index_of(to).unwrap(),
                        cost as nat,
                        path@,
                    )
                },
                None => self@.index_of(from).is_none() || self@.index_of(to).is_none()
                    || self@.no_route(
                    self@.index_of(from).unwrap(),
                    self@.index_of(to).unwrap(),
                ),
            },
            r.is_some() <==> self@.index_of(from).is_some() && self@.index_of(to).is_some()
                && !self@.no_route(self@.index_of(from).unwrap(), self@.index_of(to).unwrap()),
            from == to && self@.index_of(from).is_some() ==> r.is_some() && r.unwrap().0 == 0
                && r.unwrap().1@ == seq![from],
            self@.index_of(from).is_some() && self@.index_of(to).is_some() ==> match r {
                Some((cost, path)) => found_route(
                    self@,
                    self@.index_of(from).unwrap(),
                    self@.index_of(to).unwrap(),
                ) == Some((cost, path@)),
                None => found_route(
                    self@,
                    self@.index_of(from).unwrap(),
                    self@.index_of(to).unwrap(),
                ).is_none(),
            },
    {
        proof {
            use_type_invariant(self);
        }
        let src = match self.get_node_index(from) {
            Some(i) => i,
            None => {
                return None;
            },
        };
        let dst = match self.get_node_index(to) {
            Some(i) => i,
            None => {
                return None;
            },
        };
        proof {
            lemma_position(self@.nodes, from);
            lemma_position(self@.nodes, to);
        }
        let n = self.nodes.len();
        let mut distance: Vec<TentativeWeight> = Vec::new();
        let mut parent: Vec<Option<usize>> = Vec::new();
        let mut open: Vec<usize> = Vec::new();
        let mut i: usize = 0;
        while i < n
            invariant
                i <= n,
                src < n,
                distance@.len() == i,
                parent@.len() == i,
                open@.len() == i,
                forall|j: int| 0 <= j < i ==> #[trigger] open@[j] == j,
                forall|j: int| 0 <= j < i ==> (#[trigger] parent@[j]).is_none(),
                forall|j: int|
                    0 <= j < i ==> #[trigger] distance@[j] == if j == src {
                        TentativeWeight::Number(0)
                    } else {
                        TentativeWeight::Infinite
                    },
            decreases n - i,
        {
            if i == src {
                distance.push(TentativeWeight::Number(0));
            } else {
                distance.push(TentativeWeight::Infinite);
            }
            parent.push(None);
            open.push(i);
            i += 1;
        }
        let ghost mut st = SearchState {
            dist: distance@,
            parent: parent@,
            open: open@,
            tree: Seq::new(n as nat, |j: int| Seq::<Step>::empty()),
        };
        let ghost goal = search_start(self@, src as int).run(self@, dst as int);
        proof {
            lemma_search_start(self@, src as int, st);
            let start = search_start(self@, src as int);
            assert(st.dist =~= start.dist);
            assert(st.parent =~= start.parent);
            assert(st.open =~= start.open);
            assert(st.tree =~= start.tree);
        }
        while open.len() > 0
            invariant
                st.run(self@, dst as int) == goal,
                goal == search_start(self@, src as int).run(self@, dst as int),
                search_inv(self@, src as int, st, -1, 0),
                st.dist == distance@,
                st.parent == parent@,
                st.open == open@,
                st.is_open(dst as int),
                n == self@.nodes.len(),
                src < n,
                dst < n,
                self@.index_of(from) == Some(src as int),
                self@.index_of(to) == Some(dst as int),
                self@.nodes[src as int] == from,
            decreases open@.len(),
        {
            let pos = min_index(&distance, &open);
            proof {
                lemma_selected_is_final(self@, src as int, st, pos as int);
                assert(st.is_first_least(pos as int));
                lemma_run_step(st, self@, dst as int, pos as int);
                let next = lemma_extract(self@, src as int, st, pos as int);
                st = next;
            }
            let u = open.remove(pos);
            if u == dst {
                return match distance[dst] {
                    TentativeWeight::Number(cost) => {
                        let path = self.trace_back(src, dst, &parent, Ghost(st));
                        proof {
                            assert(st.has_witness(self@, src as int, dst as int));
                            let w = st.tree[dst as int];
                            assert(self@.is_walk(src as int, w, dst as int));
                            if from == to {
                                assert(self@.ids_along(src as int, w) =~= seq![from]);
                            }
                        }
                        Some((cost, path))
                    },
                    TentativeWeight::Infinite => None,
                };
            }
            let dist = distance[u];
            let count = self.adjacency_list[u].len();
            let ghost row_goal = st.relax_from(self@, u as int, 0);
            let mut k: usize = 0;
            while k < count
                invariant
                    st.relax_from(self@, u as int, k as int) == row_goal,
                    k <= count,
                    u < n,
                    n == self@.nodes.len(),
                    u < self.adjacency_list@.len(),
                    count == self.adjacency_list@[u as int]@.len(),
                    self@.adjacency[u as int] == self.adjacency_list@[u as int]@,
                    search_inv(self@, src as int, st, u as int, k as int),
                    st.dist == distance@,
                    st.parent == parent@,
                    st.open == open@,
                    st.is_open(dst as int),
                    dist == st.dist[u as int],
                decreases count - k,
            {
                let e = self.adjacency_list[u][k];
                proof {
                    lemma_relax_from_step(st, self@, u as int, k as int);
                }
                assert(self@.is_step((u as int, k as int)));
                assert(self@.adjacency[u as int][k as int].node < n);
                let new_distance = match dist {
                    TentativeWeight::Number(d) => match d.checked_add(e.weight) {
                        Some(through) => TentativeWeight::Number(through),
                        None => TentativeWeight::Infinite,
                    },
                    TentativeWeight::Infinite => TentativeWeight::Infinite,
                };
                let old_distance = distance[e.node];
                if new_distance.is_less(&old_distance) {
                    proof {
                        let next = lemma_relax_update(self@, src as int, st, u as int, k as int);
                        st = next;
                    }
                    distance.set(e.node, new_distance);
                    parent.set(e.node, Some(u));
                } else {
                    proof {
                        lemma_relax_skip(self@, src as int, st, u as int, k as int);
                    }
                }
                k += 1;
            }
            proof {
                lemma_row_done(self@, src as int, st, u as int);
                lemma_relax_from_step(st, self@, u as int, k as int);
            }
        }
        None
    }

    /// The identifiers along the recorded walk from row `src` to row `dst`,
    /// read off the parents from `dst` back to `src` and turned round.
    fn trace_back(
        &self,
        src: usize,
        dst: usize,
        parent: &Vec<Option<usize>>,
        Ghost(st): Ghost<SearchState>,
    ) -> (path: Vec<u64>)
        requires
            exists|cur: int, done: int| search_inv(self@, src as int, st, cur, done),
            parent@ == st.parent,
            dst < self@.nodes.len(),
            st.dist[dst as int] is Number,
        ensures
            path@ == self@.ids_along(src as int, st.tree[dst as int]),
    {
        let ghost whole = st.tree[dst as int];
        let ghost ids = self@.ids_along(src as int, whole);
        let ghost n = self@.nodes.len();
        let mut back: Vec<u64> = Vec::new();
        let mut p = dst;
        proof {
            assert(whole.take(whole.len() as int) == whole);
        }
        while p != src
            invariant
                exists|cur: int, done: int| search_inv(self@, src as int, st, cur, done),
                parent@ == st.parent,
                n == self@.nodes.len(),
                self.nodes@ == self@.nodes,
                p < n,
                st.dist[p as int] is Number,
                whole == st.tree[dst as int],
                ids == self@.ids_along(src as int, whole),
                st.tree[p as int].len() <= whole.len(),
                st.tree[p as int] == whole.take(st.tree[p as int].len() as int),
                back@.len() == whole.len() - st.tree[p as int].len(),
                forall|i: int| 0 <= i < back@.len() ==> #[trigger] back@[i] == ids[whole.len() - i],
            decreases st.tree[p as int].len(),
        {
            proof {
                assert(st.has_witness(self@, src as int, p as int));
                let walk = st.tree[p as int];
                assert(walk.len() > 0);
                assert(walk.last() == whole[walk.len() - 1]);
                let q = walk.last().0;
                assert(walk.drop_last() == whole.take(walk.len() - 1));
            }
            back.push(self.nodes[p]);
            p = parent[p].unwrap();
        }
        back.push(self.nodes[src]);
        let path = reversed(&back);
        proof {
            assert(path@ =~= ids);
        }
        path
    }

    /// For each row, whether it can be reached from row `from` over at
    /// least one and at most `degree` edges. The rows are found level by
    /// level, and the search ends as soon as a level adds none.
    fn connected_r(&self, from: usize, degree: usize) -> (reached: Vec<bool>)
        requires
            from < self@.nodes.len(),
        ensures
            reached@.len() == self@.nodes.len(),
            forall|j: int|
                0 <= j < reached@.len() ==> (#[trigger] reached@[j] <==> self@.within(
                    from as int,
                    j,
                    degree as nat,
                )),
    {
        proof {
            use_type_invariant(self);
        }
        let n = self.nodes.len();
        let mut reached = unmarked(n);
        let mut depth: usize = 0;
        while depth < degree
            invariant_except_break
                depth <= degree,
                forall|j: int|
                    0 <= j < n ==> (#[trigger] reached@[j] <==> self@.within(
                        from as int,
                        j,
                        depth as nat,
                    )),
            invariant
                self@.well_formed(),
                n == self@.nodes.len(),
                from < n,
                reached@.len() == n,
            ensures
                forall|j: int|
                    0 <= j < n ==> (#[trigger] reached@[j] <==> self@.within(
                        from as int,
                        j,
                        degree as nat,
                    )),
            decreases degree - depth,
        {
            let next = self.expand(from, &reached);
            proof {
                assert forall|j: int| 0 <= j < n implies (#[trigger] next@[j] <==> self@.within(
                    from as int,
                    j,
                    (depth + 1) as nat,
                )) by {
                    lemma_within_step(self@, from as int, j, depth as nat);
                    if next@[j] && !self@.hop(from as int, j) {
                        let m = choose|m: int| 0 <= m < n && reached@[m] && self@.hop(m, j);
                        assert(self@.within(from as int, m, depth as nat));
                    }
                    if self@.within(from as int, j, (depth + 1) as nat) && !self@.hop(
                        from as int,
                        j,
                    ) {
                        let m = choose|m: int|
                            0 <= m < n && #[trigger] self@.within(from as int, m, depth as nat)
                                && self@.hop(m, j);
                        assert(reached@[m] && self@.hop(m, j));
                    }
                }
            }
            if same_marks(&next, &reached) {
                proof {
                    assert(next@ =~= reached@);
                    assert forall|j: int| 0 <= j < n implies (#[trigger] reached@[j]
                        <==> self@.within(from as int, j, degree as nat)) by {
                        if reached@[j] {
                            let w = choose|w: Seq<Step>|
                                1 <= w.len() <= depth && #[trigger] self@.is_walk(
                                    from as int,
                                    w,
                                    j,
                                );
                            assert(self@.within(from as int, j, degree as nat));
                        }
                        if self@.within(from as int, j, degree as nat) {
                            let w = choose|w: Seq<Step>|
                                1 <= w.len() <= degree && #[trigger] self@.is_walk(
                                    from as int,
                                    w,
                                    j,
                                );
                            lemma_walk_stays_in_closed(self@, from as int, w, j, reached@);
                        }
                    }
                }
                break ;
            }
            reached = next;
            depth += 1;
        }
        reached
    }

    /// The rows that an edge reaches from row `from` or from a row marked
    /// in `reached`.
    fn expand(&self, from: usize, reached: &Vec<bool>) -> (next: Vec<bool>)
        requires
            from < self@.nodes.len(),
            reached@.len() == self@.nodes.len(),
        ensures
            next@.len() == reached@.len(),
            forall|j: int|
                0 <= j < next@.len() ==> (#[trigger] next@[j] <==> (self@.hop(from as int, j)
                    || exists|m: int| 0 <= m < reached@.len() && reached@[m] && self@.hop(m, j))),
    {
        let n = reached.len();
        let mut next = unmarked(n);
        self.mark_targets(from, &mut next);
        let mut m: usize = 0;
        while m < n
            invariant
                m <= n,
                n == reached@.len(),
                n == self@.nodes.len(),
                next@.len() == n,
                forall|j: int|
                    0 <= j < n ==> (#[trigger] next@[j] <==> (self@.hop(from as int, j)
                        || exists|t: int| 0 <= t < m && reached@[t] && self@.hop(t, j))),
            decreases n - m,
        {
            if reached[m] {
                self.mark_targets(m, &mut next);
            }
            m += 1;
        }
        next
    }

    /// Marks in `marks` every row that an edge of row `row` leads to.
    fn mark_targets(&self, row: usize, marks: &mut Vec<bool>)
        requires
            row < self@.nodes.len(),
            old(marks)@.len() == self@.nodes.len(),
        ensures
            final(marks)@.len() == old(marks)@.len(),
            forall|j: int|
                0 <= j < old(marks)@.len() ==> (#[trigger] final(marks)@[j] <==> (old(marks)@[j]
                    || self@.hop(row as int, j))),
    {
        proof {
            use_type_invariant(self);
        }
        let ghost before = marks@;
        let count = self.adjacency_list[row].len();
        let mut k: usize = 0;
        while k < count
            invariant
                k <= count,
                row < self.adjacency_list@.len(),
                count == self.adjacency_list@[row as int]@.len(),
                self@.well_formed(),
                self@.adjacency[row as int] == self.adjacency_list@[row as int]@,
                marks@.len() == before.len(),
                before.len() == self@.nodes.len(),
                forall|j: int|
                    0 <= j < before.len() ==> (#[trigger] marks@[j] <==> (before[j] || exists|
                        t: int,
                    |
                        0 <= t < k && self@.adjacency[row as int][t].node == j)),
            decreases count - k,
        {
            let target = self.adjacency_list[row][k].node;
            assert(self@.adjacency[row as int][k as int].node < self@.nodes.len());
            marks.set(target, true);
            k += 1;
        }
        proof {
            assert forall|j: int| 0 <= j < before.len() implies (#[trigger] marks@[j] <==> (
            before[j] || self@.hop(row as int, j))) by {
                if self@.hop(row as int, j) {
                    let t = choose|t: int|
                        #[trigger] self@.is_step((row as int, t)) && self@.target((row as int, t))
                            == j;
                    assert(self@.adjacency[row as int][t].node == j);
                }
                if exists|t: int| 0 <= t < k && self@.adjacency[row as int][t].node == j {
                    let t = choose|t: int| 0 <= t < k && self@.adjacency[row as int][t].node == j;
                    assert(self@.is_step((row as int, t)));
                }
            }
        }
    }

    /// The row that a lookup of `node` finds.
    fn get_node_index(&self, node: u64) -> (r: Option<usize>)
        ensures
            match r {
                Some(i) => self@.index_of(node) == Some(i as int),
                None => self@.index_of(node).is_none(),
            },
    {
        let mut i: usize = 0;
        while i < self.nodes.len()
            invariant
                i <= self.nodes@.len(),
                forall|j: int| 0 <= j < i ==> self.nodes@[j] != node,
            decreases self.nodes@.len() - i,
        {
            if self.nodes[i] == node {
                proof {
                    lemma_position_is(self.nodes@, node, i as int);
                }
                return Some(i);
            }
            i += 1;
        }
        proof {
            lemma_position(self.nodes@, node);
        }
        None
    }
}

/// The position in `nodes` of the row with the least weight; among rows of
/// equal weight, the earliest in `nodes`.
pub fn min_index(weights: &Vec<TentativeWeight>, nodes: &Vec<usize>) -> (best: usize)
    requires
        nodes@.len() > 0,
        forall|i: int| 0 <= i < nodes@.len() ==> (#[trigger] nodes@[i]) < weights@.len(),
    ensures
        best < nodes@.len(),
        forall|i: int|
            0 <= i < nodes@.len() ==> weights@[nodes@[best as int] as int].le_spec(
                weights@[#[trigger] nodes@[i] as int],
            ),
        forall|i: int|
            0 <= i < best ==> weights@[nodes@[best as int] as int].lt_spec(
                weights@[#[trigger] nodes@[i] as int],
            ),
{
    let mut best: usize = 0;
    let mut i: usize = 1;
    while i < nodes.len()
        invariant
            1 <= i <= nodes@.len(),
            best < i,
            forall|j: int| 0 <= j < nodes@.len() ==> (#[trigger] nodes@[j]) < weights@.len(),
            forall|j: int|
                0 <= j < i ==> weights@[nodes@[best as int] as int].le_spec(
                    weights@[#[trigger] nodes@[j] as int],
                ),
            forall|j: int|
                0 <= j < best ==> weights@[nodes@[best as int] as int].lt_spec(
                    weights@[#[trigger] nodes@[j] as int],
                ),
        decreases nodes@.len() - i,
    {
        let candidate = weights[nodes[i]];
        let least = weights[nodes[best]];
        if candidate.is_less(&least) {
            best = i;
        }
        i += 1;
    }
    best
}

/// The items of `items` from the last to the first.
fn reversed(items: &Vec<u64>) -> (turned: Vec<u64>)
    ensures
        turned@.len() == items@.len(),
        forall|i: int| 0 <= i < items@.len() ==> #[trigger] turned@[i] == items@[items@.len() - 1 - i],
{
    let mut turned: Vec<u64> = Vec::new();
    let mut left = items.len();
    while left > 0
        invariant
            left <= items@.len(),
            turned@.len() == items@.len() - left,
            forall|i: int|
                0 <= i < turned@.len() ==> #[trigger] turned@[i] == items@[items@.len() - 1 - i],
        decreases left,
    {
        left -= 1;
        turned.push(items[left]);
    }
    turned
}

/// `n` marks, none of them set.
fn unmarked(n: usize) -> (marks: Vec<bool>)
    ensures
        marks@.len() == n,
        forall|j: int| 0 <= j < n ==> !#[trigger] marks@[j],
{
    let mut marks: Vec<bool> = Vec::new();
    let mut i: usize = 0;
    while i < n
        invariant
            i <= n,
            marks@.len() == i,
            forall|j: int| 0 <= j < i ==> !#[trigger] marks@[j],
        decreases n - i,
    {
        marks.push(false);
        i += 1;
    }
    marks
}

/// Whether two rows of marks of one length agree everywhere.
fn same_marks(a: &Vec<bool>, b: &Vec<bool>) -> (same: bool)
    requires
        a@.len() == b@.len(),
    ensures
        same <==> a@ == b@,
{
    let mut i: usize = 0;
    while i < a.len()
        invariant
            i <= a@.len(),
            a@.len() == b@.len(),
            forall|j: int| 0 <= j < i ==> a@[j] == b@[j],
        decreases a@.len() - i,
    {
        if a[i] != b[i] {
            return false;
        }
        i += 1;
    }
    proof {
        assert(a@ =~= b@);
    }
    true
}

/// Rows without edges hold no edge.
proof fn lemma_total_len_empty_rows(adjacency: Seq<Seq<Edge>>)
    requires
        forall|i: int| 0 <= i < adjacency.len() ==> (#[trigger] adjacency[i]).len() == 0,
    ensures
        total_len(adjacency) == 0,
    decreases adjacency.len(),
{
    if adjacency.len() > 0 {
        lemma_total_len_empty_rows(adjacency.drop_last());
    }
}

} // verus!
