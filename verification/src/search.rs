//! The state of a lowest-cost search, what holds of it between two steps,
//! and why the distance of the node that leaves the open set is final.

use crate::graph_model::{lemma_walk_drop_last, lemma_walk_push, Graph, Step};
use crate::tentative::TentativeWeight;
use vstd::prelude::*;

verus! {

/// A search from one source, as plain values: the tentative distance and
/// the parent of each row, the rows still open, and for each row the walk
/// that its tentative distance is the cost of.
pub struct SearchState {
    pub dist: Seq<TentativeWeight>,
    pub parent: Seq<Option<usize>>,
    pub open: Seq<usize>,
    pub tree: Seq<Seq<Step>>,
}

impl SearchState {
    /// Row `v` has not been selected yet.
    pub open spec fn is_open(self, v: int) -> bool {
        exists|i: int| 0 <= i < self.open.len() && #[trigger] self.open[i] as int == v
    }

    /// Row `v` has been selected.
    pub open spec fn settled(self, v: int) -> bool {
        !self.is_open(v)
    }

    /// The tentative distance of row `v` is finite and at most `c`.
    pub open spec fn finite_below(self, v: int, c: int) -> bool {
        match self.dist[v] {
            TentativeWeight::Number(d) => d <= c,
            TentativeWeight::Infinite => false,
        }
    }

    /// Some open row has a finite tentative distance of at most `c`.
    pub open spec fn open_below(self, c: int) -> bool {
        exists|i: int|
            0 <= i < self.open.len() && self.finite_below(#[trigger] self.open[i] as int, c)
    }

    /// The finite distance of row `v` is the cost of its recorded walk from
    /// `src`, and that walk is the recorded walk of its parent, a settled
    /// row, followed by one edge.
    pub open spec fn has_witness(self, g: Graph, src: int, v: int) -> bool {
        let walk = self.tree[v];
        &&& g.is_walk(src, walk, v)
        &&& self.dist[v] == TentativeWeight::Number(g.cost(walk) as u32)
        &&& g.cost(walk) <= u32::MAX
        &&& walk.len() > 0 ==> {
            let u = walk.last().0;
            &&& 0 <= u < self.dist.len()
            &&& self.parent[v] == Some(u as usize)
            &&& self.settled(u)
            &&& self.dist[u] is Number
            &&& self.tree[u] == walk.drop_last()
        }
    }

    /// `pos` is the place in the open set of the row that is selected
    /// next: none of the open rows has a smaller distance, and of those
    /// with the same distance it is the earliest in the open set.
    pub open spec fn is_first_least(self, pos: int) -> bool {
        &&& 0 <= pos < self.open.len()
        &&& forall|i: int|
            0 <= i < self.open.len() ==> self.dist[self.open[pos] as int].le_spec(
                self.dist[#[trigger] self.open[i] as int],
            )
        &&& forall|i: int|
            0 <= i < pos ==> self.dist[self.open[pos] as int].lt_spec(
                self.dist[#[trigger] self.open[i] as int],
            )
    }

    /// The state without the open row at place `pos`.
    pub open spec fn without(self, pos: int) -> SearchState {
        SearchState { open: self.open.remove(pos), ..self }
    }

    /// The state after the edge `(u, k)` is looked at: where the cost
    /// through it is a number below the distance of its target, the target
    /// takes this cost as its distance, `u` as its parent and the walk of
    /// `u` with the edge as its walk.
    pub open spec fn relax(self, g: Graph, u: int, k: int) -> SearchState {
        let t = g.target((u, k));
        let through = self.dist[u]->0 + g.adjacency[u][k].weight;
        if self.dist[u] is Number && through <= u32::MAX && !self.finite_below(t, through) {
            SearchState {
                dist: self.dist.update(t, TentativeWeight::Number(through as u32)),
                parent: self.parent.update(t, Some(u as usize)),
                tree: self.tree.update(t, self.tree[u].push((u, k))),
                open: self.open,
            }
        } else {
            self
        }
    }

    /// The state after the edges of row `u` from `k` on are looked at, in
    /// their order.
    #[verifier::opaque]
    pub open spec fn relax_from(self, g: Graph, u: int, k: int) -> SearchState
        decreases g.adjacency[u].len() - k,
    {
        if 0 <= k < g.adjacency[u].len() {
            self.relax(g, u, k).relax_from(g, u, k + 1)
        } else {
            self
        }
    }

    /// The state in which row `to` is selected, where the search goes on
    /// from this state: round by round a row is selected and leaves the
    /// open set, and unless it is `to`, its edges are looked at. `None`
    /// where the open set runs out first.
    #[verifier::opaque]
    pub open spec fn run(self, g: Graph, to: int) -> Option<SearchState>
        decreases self.open.len(),
    {
        let pos = choose|pos: int| self.is_first_least(pos);
        if self.is_first_least(pos) {
            let u = self.open[pos] as int;
            if u == to {
                Some(self.without(pos))
            } else if 0 <= u < g.adjacency.len() {
                (SearchState {
                    open: self.open.remove(pos),
                    ..self.without(pos).relax_from(g, u, 0)
                }).run(g, to)
            } else {
                None
            }
        } else {
            None
        }
    }

    /// The edge `(x, k)` of a settled row has been looked at: where the
    /// cost through it is a number, the distance of its target is no more.
    /// The edges of row `cur` from `done` on are still to come.
    pub open spec fn relaxed_step(self, g: Graph, x: int, k: int, cur: int, done: int) -> bool {
        (g.is_step((x, k)) && self.settled(x) && !(x == cur && k >= done) && self.dist[x] is Number
            && self.dist[x]->0 + g.adjacency[x][k].weight <= u32::MAX) ==> self.finite_below(
            g.target((x, k)),
            self.dist[x]->0 + g.adjacency[x][k].weight,
        )
    }
}

/// What holds of a search from row `src` between two steps. `cur` is the
/// row whose edges are being looked at, with `done` of them finished, or
/// negative where no row is.
pub open spec fn search_inv(g: Graph, src: int, st: SearchState, cur: int, done: int) -> bool {
    let n = g.nodes.len() as int;
    &&& g.well_formed()
    &&& 0 <= src < n
    &&& st.dist.len() == n
    &&& st.parent.len() == n
    &&& st.tree.len() == n
    &&& st.open.no_duplicates()
    &&& forall|i: int| 0 <= i < st.open.len() ==> (#[trigger] st.open[i]) < n
    &&& st.dist[src] == TentativeWeight::Number(0)
    &&& st.tree[src].len() == 0
    &&& forall|v: int| 0 <= v < n && (#[trigger] st.dist[v]) is Number ==> st.has_witness(g, src, v)
    &&& forall|x: int, k: int| #[trigger] g.is_step((x, k)) ==> st.relaxed_step(g, x, k, cur, done)
    &&& forall|x: int, y: int|
        0 <= x < n && 0 <= y < n && #[trigger] st.settled(x) && #[trigger] st.is_open(y)
            ==> st.dist[x].le_spec(st.dist[y])
    &&& cur >= 0 ==> {
        &&& cur < n
        &&& st.settled(cur)
        &&& forall|x: int| 0 <= x < n && #[trigger] st.settled(x) ==> st.dist[x].le_spec(st.dist[cur])
    }
}

/// The state in which a search from row `src` starts: every row is open,
/// in the order of the rows, `src` has the distance 0 and the empty walk,
/// and no other row has a distance.
pub open spec fn search_start(g: Graph, src: int) -> SearchState {
    SearchState {
        dist: Seq::new(
            g.nodes.len(),
            |i: int|
                if i == src {
                    TentativeWeight::Number(0)
                } else {
                    TentativeWeight::Infinite
                },
        ),
        parent: Seq::new(g.nodes.len(), |i: int| None::<usize>),
        open: Seq::new(g.nodes.len(), |i: int| i as usize),
        tree: Seq::new(g.nodes.len(), |i: int| Seq::<Step>::empty()),
    }
}

/// What the search from row `from` finds for row `to`: the distance of
/// `to` when it is selected, with the identifiers along its walk; nothing
/// where it has no distance then.
pub open spec fn found_route(g: Graph, from: int, to: int) -> Option<(u32, Seq<u64>)> {
    match search_start(g, from).run(g, to) {
        Some(last) => match last.dist[to] {
            TentativeWeight::Number(cost) => Some((cost, g.ids_along(from, last.tree[to]))),
            TentativeWeight::Infinite => None,
        },
        None => None,
    }
}

/// Only one place in the open set is the one selected next.
pub proof fn lemma_first_least_unique(st: SearchState, p: int, q: int)
    requires
        st.is_first_least(p),
        st.is_first_least(q),
    ensures
        p == q,
{
    if p < q {
        assert(st.dist[st.open[q] as int].lt_spec(st.dist[st.open[p] as int]));
        assert(st.dist[st.open[p] as int].le_spec(st.dist[st.open[q] as int]));
    } else if q < p {
        assert(st.dist[st.open[p] as int].lt_spec(st.dist[st.open[q] as int]));
        assert(st.dist[st.open[q] as int].le_spec(st.dist[st.open[p] as int]));
    }
}

/// One edge of a row, and then the rest.
pub proof fn lemma_relax_from_step(st: SearchState, g: Graph, u: int, k: int)
    ensures
        st.relax_from(g, u, k) == if 0 <= k < g.adjacency[u].len() {
            st.relax(g, u, k).relax_from(g, u, k + 1)
        } else {
            st
        },
{
    reveal(SearchState::relax_from);
}

/// Looking at edges leaves the open set as it is.
pub proof fn lemma_relax_from_keeps_open(st: SearchState, g: Graph, u: int, k: int)
    ensures
        st.relax_from(g, u, k).open == st.open,
    decreases g.adjacency[u].len() - k,
{
    lemma_relax_from_step(st, g, u, k);
    if 0 <= k < g.adjacency[u].len() {
        lemma_relax_from_keeps_open(st.relax(g, u, k), g, u, k + 1);
    }
}

/// One round of the search, with the place `pos` as the one selected.
pub proof fn lemma_run_step(st: SearchState, g: Graph, to: int, pos: int)
    requires
        st.is_first_least(pos),
        0 <= st.open[pos] < g.adjacency.len(),
    ensures
        st.run(g, to) == if st.open[pos] as int == to {
            Some(st.without(pos))
        } else {
            st.without(pos).relax_from(g, st.open[pos] as int, 0).run(g, to)
        },
{
    reveal(SearchState::run);
    let chosen = choose|p: int| st.is_first_least(p);
    lemma_first_least_unique(st, pos, chosen);
    let u = st.open[pos] as int;
    lemma_relax_from_keeps_open(st.without(pos), g, u, 0);
    let after = st.without(pos).relax_from(g, u, 0);
    assert(after == (SearchState { open: st.open.remove(pos), ..after }));
}

/// The state in which a search starts meets the invariant.
pub proof fn lemma_search_start(g: Graph, src: int, st: SearchState)
    requires
        g.well_formed(),
        0 <= src < g.nodes.len(),
        st.dist.len() == g.nodes.len(),
        st.parent.len() == g.nodes.len(),
        st.tree.len() == g.nodes.len(),
        st.open.len() == g.nodes.len(),
        forall|i: int| 0 <= i < st.open.len() ==> #[trigger] st.open[i] == i,
        forall|i: int|
            0 <= i < st.dist.len() ==> #[trigger] st.dist[i] == if i == src {
                TentativeWeight::Number(0)
            } else {
                TentativeWeight::Infinite
            },
        forall|i: int| 0 <= i < st.tree.len() ==> (#[trigger] st.tree[i]).len() == 0,
    ensures
        search_inv(g, src, st, -1, 0),
        forall|v: int| 0 <= v < g.nodes.len() ==> st.is_open(v),
{
    let n = g.nodes.len() as int;
    assert forall|v: int| 0 <= v < n implies st.is_open(v) by {
        assert(st.open[v] as int == v);
    }
    assert forall|v: int| 0 <= v < n && (#[trigger] st.dist[v]) is Number implies st.has_witness(
        g,
        src,
        v,
    ) by {
        assert(v == src);
        assert(st.tree[v].len() == 0);
    }
    assert forall|x: int, k: int| #[trigger] g.is_step((x, k)) implies st.relaxed_step(
        g,
        x,
        k,
        -1,
        0,
    ) by {
        assert(st.is_open(x));
    }
}

/// Every walk from the source that a number can pay for ends at a row
/// whose distance is at most the walk's cost, or passes an open row whose
/// distance is.
pub proof fn lemma_walk_bound(g: Graph, src: int, st: SearchState, w: Seq<Step>, x: int)
    requires
        search_inv(g, src, st, -1, 0),
        g.is_walk(src, w, x),
        g.cost(w) <= u32::MAX,
    ensures
        0 <= x < g.nodes.len(),
        st.finite_below(x, g.cost(w) as int) || st.open_below(g.cost(w) as int),
    decreases w.len(),
{
    if w.len() > 0 {
        lemma_walk_drop_last(g, src, w, x);
        let s = w.last();
        let m = s.0;
        let v = w.drop_last();
        assert(s == (m, s.1));
        assert(g.adjacency[m][s.1].node < g.nodes.len());
        lemma_walk_bound(g, src, st, v, m);
        if st.open_below(g.cost(v) as int) {
            let i = choose|i: int|
                0 <= i < st.open.len() && st.finite_below(
                    #[trigger] st.open[i] as int,
                    g.cost(v) as int,
                );
            assert(st.finite_below(st.open[i] as int, g.cost(w) as int));
        } else if st.is_open(m) {
            let i = choose|i: int| 0 <= i < st.open.len() && #[trigger] st.open[i] as int == m;
            assert(st.finite_below(st.open[i] as int, g.cost(w) as int));
        } else {
            assert(g.is_step((m, s.1)));
            assert(st.relaxed_step(g, m, s.1, -1, 0));
        }
    }
}

/// Selecting an open row of least distance keeps the invariant, with that
/// row as the one whose edges come next.
pub proof fn lemma_extract(g: Graph, src: int, st: SearchState, pos: int) -> (next: SearchState)
    requires
        search_inv(g, src, st, -1, 0),
        0 <= pos < st.open.len(),
        forall|i: int|
            0 <= i < st.open.len() ==> st.dist[st.open[pos] as int].le_spec(
                st.dist[#[trigger] st.open[i] as int],
            ),
    ensures
        next == (SearchState { open: st.open.remove(pos), ..st }),
        search_inv(g, src, next, st.open[pos] as int, 0),
        forall|v: int| next.is_open(v) <==> (st.is_open(v) && v != st.open[pos]),
{
    let next = SearchState { open: st.open.remove(pos), ..st };
    let u = st.open[pos] as int;
    let n = g.nodes.len() as int;
    assert forall|v: int| next.is_open(v) <==> (st.is_open(v) && v != u) by {
        if next.is_open(v) {
            let i = choose|i: int| 0 <= i < next.open.len() && #[trigger] next.open[i] as int == v;
            if i < pos {
                assert(st.open[i] as int == v);
            } else {
                assert(st.open[i + 1] as int == v);
            }
        }
        if st.is_open(v) && v != u {
            let i = choose|i: int| 0 <= i < st.open.len() && #[trigger] st.open[i] as int == v;
            if i < pos {
                assert(next.open[i] as int == v);
            } else {
                assert(next.open[i - 1] as int == v);
            }
        }
    }
    assert(next.open.no_duplicates()) by {
        assert forall|i: int, j: int|
            0 <= i < next.open.len() && 0 <= j < next.open.len() && i != j implies next.open[i]
            != next.open[j] by {
            let a = if i < pos { i } else { i + 1 };
            let b = if j < pos { j } else { j + 1 };
            assert(next.open[i] == st.open[a]);
            assert(next.open[j] == st.open[b]);
        }
    }
    assert forall|i: int| 0 <= i < next.open.len() implies (#[trigger] next.open[i]) < n by {
        let a = if i < pos { i } else { i + 1 };
        assert(next.open[i] == st.open[a]);
    }
    assert(st.is_open(u)) by {
        assert(st.open[pos] as int == u);
    }
    assert forall|v: int| 0 <= v < n && (#[trigger] next.dist[v]) is Number implies next.has_witness(
        g,
        src,
        v,
    ) by {
        assert(st.has_witness(g, src, v));
    }
    assert forall|x: int, k: int| #[trigger] g.is_step((x, k)) implies next.relaxed_step(
        g,
        x,
        k,
        u,
        0,
    ) by {
        assert(st.relaxed_step(g, x, k, -1, 0));
    }
    assert forall|x: int, y: int|
        0 <= x < n && 0 <= y < n && #[trigger] next.settled(x) && #[trigger] next.is_open(
            y,
        ) implies next.dist[x].le_spec(next.dist[y]) by {
        let j = choose|j: int| 0 <= j < st.open.len() && #[trigger] st.open[j] as int == y;
        if x == u {
        } else {
            assert(st.settled(x) && st.is_open(y));
        }
    }
    assert forall|x: int| 0 <= x < n && #[trigger] next.settled(x) implies next.dist[x].le_spec(
        next.dist[u],
    ) by {
        if x != u {
            assert(st.settled(x) && st.is_open(u));
        }
    }
    next
}

/// An edge that does not lower the distance of its target needs no change.
pub proof fn lemma_relax_skip(g: Graph, src: int, st: SearchState, u: int, k: int)
    requires
        search_inv(g, src, st, u, k),
        u >= 0,
        g.is_step((u, k)),
        st.dist[u] is Number ==> (st.dist[u]->0 + g.adjacency[u][k].weight <= u32::MAX
            ==> st.finite_below(g.target((u, k)), st.dist[u]->0 + g.adjacency[u][k].weight)),
    ensures
        search_inv(g, src, st, u, k + 1),
        st.relax(g, u, k) == st,
{
    assert forall|x: int, j: int| #[trigger] g.is_step((x, j)) implies st.relaxed_step(
        g,
        x,
        j,
        u,
        k + 1,
    ) by {
        assert(st.relaxed_step(g, x, j, u, k));
    }
}

/// An edge that lowers the distance of its target: the target takes the
/// cost through the edge, the edge's row as its parent, and that row's
/// walk with the edge as its own.
pub proof fn lemma_relax_update(g: Graph, src: int, st: SearchState, u: int, k: int) -> (next:
    SearchState)
    requires
        search_inv(g, src, st, u, k),
        u >= 0,
        g.is_step((u, k)),
        st.dist[u] is Number,
        st.dist[u]->0 + g.adjacency[u][k].weight <= u32::MAX,
        !st.finite_below(g.target((u, k)), st.dist[u]->0 + g.adjacency[u][k].weight),
    ensures
        next == (SearchState {
            dist: st.dist.update(
                g.target((u, k)),
                TentativeWeight::Number((st.dist[u]->0 + g.adjacency[u][k].weight) as u32),
            ),
            parent: st.parent.update(g.target((u, k)), Some(u as usize)),
            tree: st.tree.update(g.target((u, k)), st.tree[u].push((u, k))),
            open: st.open,
        }),
        search_inv(g, src, next, u, k + 1),
        next.is_open(g.target((u, k))),
        next == st.relax(g, u, k),
{
    let n = g.nodes.len() as int;
    let t = g.target((u, k));
    let du = st.dist[u]->0;
    let cand = du + g.adjacency[u][k].weight;
    let next = SearchState {
        dist: st.dist.update(t, TentativeWeight::Number(cand as u32)),
        parent: st.parent.update(t, Some(u as usize)),
        tree: st.tree.update(t, st.tree[u].push((u, k))),
        open: st.open,
    };
    assert(g.adjacency[u][k].node < n);
    assert(0 <= t < n);
    assert(st.has_witness(g, src, u));
    // The target is still open: a settled row is no farther than `u`.
    assert(st.is_open(t)) by {
        if st.settled(t) {
            assert(st.dist[t].le_spec(st.dist[u]));
        }
    }
    assert(t != u);
    assert(t != src);
    assert(next.open == st.open);
    lemma_walk_push(g, src, st.tree[u], u, (u, k));
    assert forall|v: int| 0 <= v < n && (#[trigger] next.dist[v]) is Number implies next.has_witness(
        g,
        src,
        v,
    ) by {
        if v == t {
            let walk = next.tree[t];
            assert(walk == st.tree[u].push((u, k)));
            assert(walk.last() == (u, k));
            assert(walk.drop_last() == st.tree[u]);
            assert(next.tree[u] == st.tree[u]);
        } else {
            assert(st.dist[v] is Number);
            assert(st.has_witness(g, src, v));
            let walk = st.tree[v];
            if walk.len() > 0 {
                let p = walk.last().0;
                assert(st.settled(p));
                assert(p != t);
            }
        }
    }
    assert forall|x: int, j: int| #[trigger] g.is_step((x, j)) implies next.relaxed_step(
        g,
        x,
        j,
        u,
        k + 1,
    ) by {
        assert(st.relaxed_step(g, x, j, u, k));
        if next.settled(x) {
            assert(st.settled(x));
            assert(x != t);
        }
    }
    assert forall|x: int, y: int|
        0 <= x < n && 0 <= y < n && #[trigger] next.settled(x) && #[trigger] next.is_open(
            y,
        ) implies next.dist[x].le_spec(next.dist[y]) by {
        assert(st.settled(x) && st.is_open(y));
        assert(x != t);
        if y == t {
            assert(st.dist[x].le_spec(st.dist[u]));
        }
    }
    assert forall|x: int| 0 <= x < n && #[trigger] next.settled(x) implies next.dist[x].le_spec(
        next.dist[u],
    ) by {
        assert(st.settled(x));
        assert(x != t);
    }
    next
}

/// Once all edges of the selected row are looked at, no row is left half
/// done.
pub proof fn lemma_row_done(g: Graph, src: int, st: SearchState, u: int)
    requires
        0 <= u < g.adjacency.len(),
        search_inv(g, src, st, u, g.adjacency[u].len() as int),
    ensures
        search_inv(g, src, st, -1, 0),
{
    assert forall|x: int, j: int| #[trigger] g.is_step((x, j)) implies st.relaxed_step(
        g,
        x,
        j,
        -1,
        0,
    ) by {
        assert(st.relaxed_step(g, x, j, u, g.adjacency[u].len() as int));
    }
}

/// When the open row of least distance is the target, its distance is the
/// lowest cost of any walk to it; where it has none, no walk that a number
/// can pay for leads to it.
pub proof fn lemma_selected_is_final(g: Graph, src: int, st: SearchState, pos: int)
    requires
        search_inv(g, src, st, -1, 0),
        0 <= pos < st.open.len(),
        forall|i: int|
            0 <= i < st.open.len() ==> st.dist[st.open[pos] as int].le_spec(
                st.dist[#[trigger] st.open[i] as int],
            ),
    ensures
        match st.dist[st.open[pos] as int] {
            TentativeWeight::Number(c) => forall|w: Seq<Step>| #[trigger]
                g.is_walk(src, w, st.open[pos] as int) ==> c <= g.cost(w),
            TentativeWeight::Infinite => forall|w: Seq<Step>| #[trigger]
                g.is_walk(src, w, st.open[pos] as int) ==> g.cost(w) > u32::MAX,
        },
{
    let u = st.open[pos] as int;
    assert forall|w: Seq<Step>| #[trigger] g.is_walk(src, w, u) && g.cost(w) <= u32::MAX implies st.finite_below(
        u,
        g.cost(w) as int,
    ) by {
        lemma_walk_bound(g, src, st, w, u);
        if st.open_below(g.cost(w) as int) {
            let i = choose|i: int|
                0 <= i < st.open.len() && st.finite_below(
                    #[trigger] st.open[i] as int,
                    g.cost(w) as int,
                );
            assert(st.dist[u].le_spec(st.dist[st.open[i] as int]));
        }
    }
}

} // verus!
