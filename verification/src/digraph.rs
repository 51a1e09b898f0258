//! Index-based directed graph storage.
//!
//! Nodes are the indices `0..node_count`; node payloads live with the caller,
//! aligned by index. Edges are stored in an arena in insertion order, with
//! per-node adjacency lists of edge indices kept in both directions. At most
//! one edge exists for any ordered pair of endpoints: re-adding replaces the
//! stored payload.

use vstd::prelude::*;

verus! {

/// One stored edge: endpoints and payload.
pub struct DiEdge<E> {
    pub from: usize,
    pub to: usize,
    pub payload: E,
}

/// A directed graph with payload-carrying edges and at most one edge per
/// ordered pair of nodes.
pub struct DiGraph<E> {
    pub node_count: usize,
    pub edges: Vec<DiEdge<E>>,
    pub out_adj: Vec<Vec<usize>>,
    pub in_adj: Vec<Vec<usize>>,
}

impl<E> DiGraph<E> {
    /// Edge `e` is recorded in the out-adjacency list of its source.
    pub open spec fn out_listed(self, e: int) -> bool {
        exists|k: int|
            0 <= k < self.out_adj@[self.edges@[e].from as int].len()
                && self.out_adj@[self.edges@[e].from as int]@[k] == e
    }

    /// Edge `e` is recorded in the in-adjacency list of its target.
    pub open spec fn in_listed(self, e: int) -> bool {
        exists|k: int|
            0 <= k < self.in_adj@[self.edges@[e].to as int].len()
                && self.in_adj@[self.edges@[e].to as int]@[k] == e
    }

    /// Representation invariant: adjacency lists index the edge arena
    /// consistently in both directions, and edges have unique endpoint pairs.
    pub open spec fn wf(self) -> bool {
        &&& self.out_adj@.len() == self.node_count
        &&& self.in_adj@.len() == self.node_count
        &&& forall|e: int|
            0 <= e < self.edges@.len() ==> (#[trigger] self.edges@[e]).from < self.node_count
                && self.edges@[e].to < self.node_count
        &&& forall|v: int, k: int|
            0 <= v < self.node_count && 0 <= k < self.out_adj@[v].len() ==> {
                &&& #[trigger] self.out_adj@[v]@[k] < self.edges@.len()
                &&& self.edges@[self.out_adj@[v]@[k] as int].from == v
            }
        &&& forall|v: int, k: int|
            0 <= v < self.node_count && 0 <= k < self.in_adj@[v].len() ==> {
                &&& #[trigger] self.in_adj@[v]@[k] < self.edges@.len()
                &&& self.edges@[self.in_adj@[v]@[k] as int].to == v
            }
        &&& forall|v: int|
            0 <= v < self.node_count ==> (#[trigger] self.out_adj@[v]@).no_duplicates()
        &&& forall|v: int|
            0 <= v < self.node_count ==> (#[trigger] self.in_adj@[v]@).no_duplicates()
        &&& forall|e: int| 0 <= e < self.edges@.len() ==> #[trigger] self.out_listed(e)
        &&& forall|e: int| 0 <= e < self.edges@.len() ==> #[trigger] self.in_listed(e)
        &&& forall|e1: int, e2: int|
            0 <= e1 < self.edges@.len() && 0 <= e2 < self.edges@.len() && e1 != e2 ==> !((
            #[trigger] self.edges@[e1]).from == (#[trigger] self.edges@[e2]).from
                && self.edges@[e1].to == self.edges@[e2].to)
    }

    /// There is an edge from `u` to `v`.
    pub open spec fn has_edge(self, u: int, v: int) -> bool {
        exists|e: int|
            0 <= e < self.edges@.len() && (#[trigger] self.edges@[e]).from == u
                && self.edges@[e].to == v
    }

    /// The arena index of the edge from `u` to `v`.
    pub open spec fn edge_index(self, u: int, v: int) -> int {
        choose|e: int|
            0 <= e < self.edges@.len() && (#[trigger] self.edges@[e]).from == u
                && self.edges@[e].to == v
    }

    /// The payload of the edge from `u` to `v`.
    pub open spec fn payload_of(self, u: int, v: int) -> E {
        self.edges@[self.edge_index(u, v)].payload
    }

    /// The graph's edges as a map from endpoint pairs to payloads.
    pub open spec fn edges_map(self) -> Map<(int, int), E> {
        Map::new(|p: (int, int)| self.has_edge(p.0, p.1), |p: (int, int)| self.payload_of(p.0, p.1))
    }

    /// Two graphs with the same edge arena agree on edges and payloads.
    pub proof fn lemma_same_edges(self, other: DiGraph<E>)
        requires
            self.wf(),
            self.edges@ == other.edges@,
        ensures
            forall|a: int, b: int|
                #[trigger] self.has_edge(a, b) ==> other.has_edge(a, b) && self.payload_of(a, b)
                    == other.payload_of(a, b),
            forall|a: int, b: int|
                #[trigger] other.has_edge(a, b) ==> self.has_edge(a, b) && self.payload_of(a, b)
                    == other.payload_of(a, b),
    {
        assert forall|a: int, b: int| #[trigger] self.has_edge(a, b) implies other.has_edge(a, b)
            && self.payload_of(a, b) == other.payload_of(a, b) by {
            let e1 = self.edge_index(a, b);
            assert(other.edges@[e1].from == a && other.edges@[e1].to == b);
            let e2 = other.edge_index(a, b);
            assert(self.edges@[e2].from == a && self.edges@[e2].to == b);
            assert(e1 == e2);
        }
        assert forall|a: int, b: int| #[trigger] other.has_edge(a, b) implies self.has_edge(a, b)
            && self.payload_of(a, b) == other.payload_of(a, b) by {
            let e = other.edge_index(a, b);
            assert(self.edges@[e].from == a && self.edges@[e].to == b);
        }
    }

    /// With unique endpoint pairs, a graph holds at most `n * n` edges.
    pub proof fn lemma_edge_count_bound(self)
        requires
            self.wf(),
            self.node_count * self.node_count <= usize::MAX,
        ensures
            self.edges@.len() <= self.node_count * self.node_count,
    {
        let n = self.node_count;
        let m = Seq::new(
            self.edges@.len(),
            |e: int| ((self.edges@[e].from * n + self.edges@[e].to) as usize),
        );
        assert forall|e: int| 0 <= e < m.len() implies (#[trigger] m[e]) < n * n by {
            let a = self.edges@[e].from;
            let b = self.edges@[e].to;
            assert(a * n + b < n * n) by (nonlinear_arith)
                requires
                    a < n,
                    b < n,
            ;
        }
        assert(m.no_duplicates()) by {
            assert forall|e1: int, e2: int|
                0 <= e1 < m.len() && 0 <= e2 < m.len() && e1 != e2 implies m[e1] != m[e2] by {
                let a1 = self.edges@[e1].from;
                let b1 = self.edges@[e1].to;
                let a2 = self.edges@[e2].from;
                let b2 = self.edges@[e2].to;
                assert(!(a1 == a2 && b1 == b2));
                assert(0 <= a1 * n + b1 < n * n && 0 <= a2 * n + b2 < n * n && a1 * n + b1 != a2
                    * n + b2) by (nonlinear_arith)
                    requires
                        a1 < n,
                        b1 < n,
                        a2 < n,
                        b2 < n,
                        !(a1 == a2 && b1 == b2),
                ;
                assert(m[e1] == a1 * n + b1);
                assert(m[e2] == a2 * n + b2);
            }
        }
        crate::reach::lemma_distinct_bounded_len(m, (n * n) as int);
    }

    /// An empty graph.
    pub fn new() -> (r: Self)
        ensures
            r.wf(),
            r.node_count == 0,
            r.edges@.len() == 0,
    {
        DiGraph { node_count: 0, edges: Vec::new(), out_adj: Vec::new(), in_adj: Vec::new() }
    }

    /// Adds a node, returning its index.
    pub fn add_node(&mut self) -> (ix: usize)
        requires
            old(self).wf(),
            old(self).node_count < usize::MAX,
        ensures
            final(self).wf(),
            ix == old(self).node_count,
            final(self).node_count == old(self).node_count + 1,
            final(self).edges@ == old(self).edges@,
    {
        let ix = self.node_count;
        self.node_count = self.node_count + 1;
        self.out_adj.push(Vec::new());
        self.in_adj.push(Vec::new());
        proof {
            let post = *self;
            let pre = *old(self);
            assert forall|v: int, k: int|
                0 <= v < post.node_count && 0 <= k < post.out_adj@[v].len() implies {
                &&& #[trigger] post.out_adj@[v]@[k] < post.edges@.len()
                &&& post.edges@[post.out_adj@[v]@[k] as int].from == v
            } by {
                if v < ix {
                    assert(post.out_adj@[v] == pre.out_adj@[v]);
                }
            }
            assert forall|v: int, k: int|
                0 <= v < post.node_count && 0 <= k < post.in_adj@[v].len() implies {
                &&& #[trigger] post.in_adj@[v]@[k] < post.edges@.len()
                &&& post.edges@[post.in_adj@[v]@[k] as int].to == v
            } by {
                if v < ix {
                    assert(post.in_adj@[v] == pre.in_adj@[v]);
                }
            }
            assert forall|e: int| 0 <= e < post.edges@.len() implies #[trigger] post.out_listed(
                e,
            ) by {
                assert(pre.out_listed(e));
                let f = pre.edges@[e].from as int;
                assert(pre.edges@[e].from < pre.node_count);
                let k = choose|k: int|
                    0 <= k < pre.out_adj@[pre.edges@[e].from as int].len()
                        && pre.out_adj@[pre.edges@[e].from as int]@[k] == e;
                assert(post.out_adj@[f] == pre.out_adj@[f]);
                assert(post.out_adj@[post.edges@[e].from as int]@[k] == e);
            }
            assert forall|e: int| 0 <= e < post.edges@.len() implies #[trigger] post.in_listed(
                e,
            ) by {
                assert(pre.in_listed(e));
                let t = pre.edges@[e].to as int;
                assert(pre.edges@[e].to < pre.node_count);
                let k = choose|k: int|
                    0 <= k < pre.in_adj@[pre.edges@[e].to as int].len()
                        && pre.in_adj@[pre.edges@[e].to as int]@[k] == e;
                assert(post.in_adj@[t] == pre.in_adj@[t]);
                assert(post.in_adj@[post.edges@[e].to as int]@[k] == e);
            }
        }
        ix
    }

    /// Number of stored edges.
    pub fn edge_count(&self) -> (r: usize)
        ensures
            r == self.edges@.len(),
    {
        self.edges.len()
    }

    /// Whether an edge from `u` to `v` exists.
    pub fn contains_edge(&self, u: usize, v: usize) -> (r: bool)
        requires
            self.wf(),
            u < self.node_count,
        ensures
            r == self.has_edge(u as int, v as int),
    {
        let row = &self.out_adj[u];
        let mut k: usize = 0;
        let mut hit = false;
        while k < row.len()
            invariant
                self.wf(),
                u < self.node_count,
                row == self.out_adj@[u as int],
                k <= row@.len(),
                hit ==> self.has_edge(u as int, v as int),
                !hit ==> forall|j: int| 0 <= j < k ==> self.edges@[#[trigger] row@[j] as int].to
                    != v,
            decreases row@.len() - k,
        {
            let e = row[k];
            if !hit && self.edges[e].to == v {
                proof {
                    assert(self.edges@[e as int].from == u && self.edges@[e as int].to == v);
                }
                hit = true;
            }
            k += 1;
        }
        proof {
            if !hit && self.has_edge(u as int, v as int) {
                let e = choose|e: int|
                    0 <= e < self.edges@.len() && (#[trigger] self.edges@[e]).from == u
                        && self.edges@[e].to == v;
                assert(self.out_listed(e));
                let j = choose|j: int|
                    0 <= j < self.out_adj@[self.edges@[e].from as int].len()
                        && self.out_adj@[self.edges@[e].from as int]@[j] == e;
                assert(self.edges@[row@[j] as int].to == v);
            }
        }
        hit
    }

    /// The payload of the edge from `u` to `v`, if one exists.
    pub fn edge_payload(&self, u: usize, v: usize) -> (r: Option<&E>)
        requires
            self.wf(),
            u < self.node_count,
        ensures
            match r {
                Some(p) => self.has_edge(u as int, v as int) && *p == self.payload_of(
                    u as int,
                    v as int,
                ),
                None => !self.has_edge(u as int, v as int),
            },
    {
        let row = &self.out_adj[u];
        let mut k: usize = 0;
        while k < row.len()
            invariant
                self.wf(),
                u < self.node_count,
                row == self.out_adj@[u as int],
                k <= row@.len(),
                forall|j: int| 0 <= j < k ==> self.edges@[#[trigger] row@[j] as int].to != v,
            decreases row@.len() - k,
        {
            let e = row[k];
            if self.edges[e].to == v {
                proof {
                    assert(self.edges@[e as int].from == u && self.edges@[e as int].to == v);
                    let e2 = self.edge_index(u as int, v as int);
                    assert(self.edges@[e2].from == u && self.edges@[e2].to == v);
                    assert(e2 == e);
                }
                return Some(&self.edges[e].payload);
            }
            k += 1;
        }
        proof {
            if self.has_edge(u as int, v as int) {
                let e = self.edge_index(u as int, v as int);
                assert(self.out_listed(e));
                let j = choose|j: int|
                    0 <= j < self.out_adj@[self.edges@[e].from as int].len()
                        && self.out_adj@[self.edges@[e].from as int]@[j] == e;
                assert(self.edges@[row@[j] as int].to == v);
            }
        }
        None
    }

    /// Adds an edge from `u` to `v`, replacing the payload if one is present.
    pub fn update_edge(&mut self, u: usize, v: usize, payload: E)
        requires
            old(self).wf(),
            u < old(self).node_count,
            v < old(self).node_count,
            old(self).edges@.len() < usize::MAX,
        ensures
            final(self).wf(),
            final(self).node_count == old(self).node_count,
            final(self).edges_map() =~= old(self).edges_map().insert(
                (u as int, v as int),
                payload,
            ),
            forall|a: int, b: int|
                #[trigger] final(self).has_edge(a, b) ==> (old(self).has_edge(a, b) || (a == u && b
                    == v)),
            forall|a: int, b: int|
                #[trigger] old(self).has_edge(a, b) ==> final(self).has_edge(a, b),
            final(self).has_edge(u as int, v as int),
            !old(self).has_edge(u as int, v as int) ==> final(self).edges@ == old(
                self,
            ).edges@.push(DiEdge { from: u, to: v, payload }),
    {
        let ghost pre = *self;
        // Find an existing edge for this pair, if any.
        let mut found: Option<usize> = None;
        {
            let row = &self.out_adj[u];
            let mut k: usize = 0;
            while k < row.len()
                invariant
                    self.wf(),
                    u < self.node_count,
                    v < self.node_count,
                    row == self.out_adj@[u as int],
                    k <= row@.len(),
                    match found {
                        Option::None => forall|j: int|
                            0 <= j < k ==> self.edges@[#[trigger] row@[j] as int].to != v,
                        Option::Some(e) => e < self.edges@.len() && self.edges@[e as int].from == u
                            && self.edges@[e as int].to == v,
                    },
                decreases row@.len() - k,
            {
                let e = row[k];
                if found.is_none() && self.edges[e].to == v {
                    found = Some(e);
                }
                k += 1;
            }
        }
        proof {
            if found is None {
                // A matching edge would be listed in u's out-adjacency.
                assert forall|e2: int| 0 <= e2 < pre.edges@.len() implies !((
                #[trigger] pre.edges@[e2]).from == u && pre.edges@[e2].to == v) by {
                    if pre.edges@[e2].from == u && pre.edges@[e2].to == v {
                        assert(pre.out_listed(e2));
                        let j = choose|j: int|
                            0 <= j < pre.out_adj@[pre.edges@[e2].from as int].len()
                                && pre.out_adj@[pre.edges@[e2].from as int]@[j] == e2;
                        assert(pre.edges@[pre.out_adj@[u as int]@[j] as int].to == v);
                    }
                }
            }
        }
        match found {
            Some(e) => {
                proof {
                    assert(pre.edges@[e as int].from == u && pre.edges@[e as int].to == v);
                }
                self.edges.set(e, DiEdge { from: u, to: v, payload });
                proof {
                    let post = *self;
                    assert forall|e2: int| 0 <= e2 < post.edges@.len() implies #[trigger] post.out_listed(
                        e2,
                    ) by {
                        assert(pre.out_listed(e2));
                        let k = choose|k: int|
                            0 <= k < pre.out_adj@[pre.edges@[e2].from as int].len()
                                && pre.out_adj@[pre.edges@[e2].from as int]@[k] == e2;
                        assert(post.edges@[e2].from == pre.edges@[e2].from);
                        assert(post.out_adj@[post.edges@[e2].from as int]@[k] == e2);
                    }
                    assert forall|e2: int| 0 <= e2 < post.edges@.len() implies #[trigger] post.in_listed(
                        e2,
                    ) by {
                        assert(pre.in_listed(e2));
                        let k = choose|k: int|
                            0 <= k < pre.in_adj@[pre.edges@[e2].to as int].len()
                                && pre.in_adj@[pre.edges@[e2].to as int]@[k] == e2;
                        assert(post.edges@[e2].to == pre.edges@[e2].to);
                        assert(post.in_adj@[post.edges@[e2].to as int]@[k] == e2);
                    }
                    assert(post.wf());
                    assert forall|a: int, b: int| post.has_edge(a, b) <==> pre.has_edge(a, b) by {
                        if post.has_edge(a, b) {
                            let e2 = post.edge_index(a, b);
                            assert(pre.edges@[e2].from == a && pre.edges@[e2].to == b);
                        }
                        if pre.has_edge(a, b) {
                            let e2 = choose|e2: int|
                                0 <= e2 < pre.edges@.len() && (#[trigger] pre.edges@[e2]).from == a
                                    && pre.edges@[e2].to == b;
                            assert(post.edges@[e2].from == a && post.edges@[e2].to == b);
                        }
                    }
                    assert forall|a: int, b: int| #[trigger]
                        post.has_edge(a, b) && !(a == u && b == v) implies post.payload_of(a, b)
                        == pre.payload_of(a, b) && pre.has_edge(a, b) by {
                        let e2 = post.edge_index(a, b);
                        assert(pre.edges@[e2].from == a && pre.edges@[e2].to == b);
                        let e3 = pre.edge_index(a, b);
                        assert(post.edges@[e3].from == a && post.edges@[e3].to == b);
                        assert(e2 == e3);
                        assert(e2 != e);
                    }
                    assert(post.has_edge(u as int, v as int)) by {
                        assert(post.edges@[e as int].from == u && post.edges@[e as int].to == v);
                    }
                    assert(post.payload_of(u as int, v as int) == payload) by {
                        let e2 = post.edge_index(u as int, v as int);
                        assert(pre.edges@[e2].from == u && pre.edges@[e2].to == v);
                        assert(e2 == e);
                    }
                }
            },
            None => {
                let e = self.edges.len();
                self.edges.push(DiEdge { from: u, to: v, payload });
                let mut row: Vec<usize> = Vec::new();
                self.out_adj.set_and_swap(u, &mut row);
                row.push(e);
                self.out_adj.set_and_swap(u, &mut row);
                let mut row2: Vec<usize> = Vec::new();
                self.in_adj.set_and_swap(v, &mut row2);
                row2.push(e);
                self.in_adj.set_and_swap(v, &mut row2);
                proof {
                    let post = *self;
                    assert(post.out_adj@[u as int]@ == pre.out_adj@[u as int]@ + seq![e]);
                    assert(post.in_adj@[v as int]@ == pre.in_adj@[v as int]@ + seq![e]);
                    assert forall|e1: int, e2: int|
                        0 <= e1 < post.edges@.len() && 0 <= e2 < post.edges@.len() && e1
                            != e2 implies !((#[trigger] post.edges@[e1]).from == (
                    #[trigger] post.edges@[e2]).from && post.edges@[e1].to == post.edges@[e2].to) by {
                        if e1 < pre.edges@.len() && e2 < pre.edges@.len() {
                            assert(!(pre.edges@[e1].from == pre.edges@[e2].from
                                && pre.edges@[e1].to == pre.edges@[e2].to));
                        } else if e1 == e as int {
                            assert(post.edges@[e2] == pre.edges@[e2]);
                        } else {
                            assert(post.edges@[e1] == pre.edges@[e1]);
                        }
                    }
                    assert forall|w: int, k: int|
                        0 <= w < post.node_count && 0 <= k < post.out_adj@[w].len() implies {
                        &&& #[trigger] post.out_adj@[w]@[k] < post.edges@.len()
                        &&& post.edges@[post.out_adj@[w]@[k] as int].from == w
                    } by {
                        if w == u as int && k == post.out_adj@[w].len() - 1 {
                            assert(post.out_adj@[w]@[k] == e);
                        } else {
                            assert(post.out_adj@[w]@[k] == pre.out_adj@[w]@[k]);
                        }
                    }
                    assert forall|w: int, k: int|
                        0 <= w < post.node_count && 0 <= k < post.in_adj@[w].len() implies {
                        &&& #[trigger] post.in_adj@[w]@[k] < post.edges@.len()
                        &&& post.edges@[post.in_adj@[w]@[k] as int].to == w
                    } by {
                        if w == v as int && k == post.in_adj@[w].len() - 1 {
                            assert(post.in_adj@[w]@[k] == e);
                        } else {
                            assert(post.in_adj@[w]@[k] == pre.in_adj@[w]@[k]);
                        }
                    }
                    assert forall|e2: int| 0 <= e2 < post.edges@.len() implies #[trigger] post.out_listed(
                        e2,
                    ) by {
                        if e2 < pre.edges@.len() {
                            assert(pre.out_listed(e2));
                            let k = choose|k: int|
                                0 <= k < pre.out_adj@[pre.edges@[e2].from as int].len()
                                    && pre.out_adj@[pre.edges@[e2].from as int]@[k] == e2;
                            assert(post.edges@[e2] == pre.edges@[e2]);
                            assert(post.out_adj@[post.edges@[e2].from as int]@[k] == e2);
                        } else {
                            let k = post.out_adj@[u as int].len() - 1;
                            assert(post.out_adj@[u as int]@[k] == e2);
                        }
                    }
                    assert forall|e2: int| 0 <= e2 < post.edges@.len() implies #[trigger] post.in_listed(
                        e2,
                    ) by {
                        if e2 < pre.edges@.len() {
                            assert(pre.in_listed(e2));
                            let k = choose|k: int|
                                0 <= k < pre.in_adj@[pre.edges@[e2].to as int].len()
                                    && pre.in_adj@[pre.edges@[e2].to as int]@[k] == e2;
                            assert(post.edges@[e2] == pre.edges@[e2]);
                            assert(post.in_adj@[post.edges@[e2].to as int]@[k] == e2);
                        } else {
                            let k = post.in_adj@[v as int].len() - 1;
                            assert(post.in_adj@[v as int]@[k] == e2);
                        }
                    }
                    assert(post.wf());
                    assert forall|a: int, b: int|
                        post.has_edge(a, b) <==> (pre.has_edge(a, b) || (a == u && b == v)) by {
                        if post.has_edge(a, b) {
                            let e2 = post.edge_index(a, b);
                            if e2 < pre.edges@.len() {
                                assert(pre.edges@[e2].from == a && pre.edges@[e2].to == b);
                            }
                        }
                        if pre.has_edge(a, b) {
                            let e2 = choose|e2: int|
                                0 <= e2 < pre.edges@.len() && (#[trigger] pre.edges@[e2]).from == a
                                    && pre.edges@[e2].to == b;
                            assert(post.edges@[e2].from == a && post.edges@[e2].to == b);
                        }
                        assert(post.edges@[e as int].from == u && post.edges@[e as int].to == v);
                    }
                    assert forall|a: int, b: int| #[trigger]
                        post.has_edge(a, b) && !(a == u && b == v) implies post.payload_of(a, b)
                        == pre.payload_of(a, b) by {
                        let e2 = post.edge_index(a, b);
                        assert(e2 != e);
                        assert(pre.edges@[e2].from == a && pre.edges@[e2].to == b);
                        let e3 = pre.edge_index(a, b);
                        assert(post.edges@[e3].from == a && post.edges@[e3].to == b);
                        assert(e2 == e3);
                    }
                    assert(post.payload_of(u as int, v as int) == payload) by {
                        let e2 = post.edge_index(u as int, v as int);
                        assert(post.edges@[e as int].from == u && post.edges@[e as int].to == v);
                        if e2 != e {
                            assert(pre.edges@[e2].from == u && pre.edges@[e2].to == v);
                        }
                    }
                }
            },
        }
    }
}

} // verus!
