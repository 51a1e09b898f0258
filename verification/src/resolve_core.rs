//! Core logic for queries resolved into a known set of nodes.
//!
//! A resolved set is a bitset over the nodes of one graph together with its
//! cardinality. It is produced by reachability queries and combined with
//! pointwise set algebra; roots, topological iteration and edge iteration
//! are answered against the graph's components.

use vstd::prelude::*;
use fixedbitset::FixedBitSet;
use crate::bitset::{
    bit_capacity, bits, bits_wf, bs_clone, bs_contains, bs_count_ones, bs_difference,
    bs_intersect_with, bs_new, bs_symmetric_difference_with, bs_union_with, bs_insert,
};
use crate::digraph::DiGraph;
use crate::reach::{ix_set, reach_set, reachable};
use crate::scc::{seq_has, Sccs};
use crate::DependencyDirection;

verus! {

/// Some edge whose endpoints are both included enters group `gi` from a
/// different group, under the direction's orientation.
pub open spec fn group_blocked<E>(
    g: DiGraph<E>,
    sccs: Sccs,
    included: Set<int>,
    gi: int,
    rev: bool,
) -> bool {
    exists|e: int|
        0 <= e < g.edges@.len() && {
            let u = (#[trigger] g.edges@[e]).from as int;
            let v = g.edges@[e].to as int;
            &&& included.contains(u)
            &&& included.contains(v)
            &&& if rev {
                sccs.group_of@[u] == gi && sccs.group_of@[v] != gi
            } else {
                sccs.group_of@[v] == gi && sccs.group_of@[u] != gi
            }
        }
}

/// The node order of the components, as traversed in a direction.
pub open spec fn ordered_nodes(sccs: Sccs, rev: bool) -> Seq<usize> {
    if rev {
        sccs.order@.reverse()
    } else {
        sccs.order@
    }
}

/// Membership predicate of an included set, over node indices.
pub open spec fn incl_pred(included: Set<int>) -> spec_fn(usize) -> bool {
    |x: usize| included.contains(x as int)
}

/// The included nodes in topological order for a direction.
pub open spec fn topo_items(sccs: Sccs, included: Set<int>, rev: bool) -> Seq<usize> {
    ordered_nodes(sccs, rev).filter(incl_pred(included))
}

/// The logical `(from, to, edge index)` triple of an edge.
pub open spec fn edge_triple<E>(g: DiGraph<E>, e: int) -> (int, int, int) {
    (g.edges@[e].from as int, g.edges@[e].to as int, e)
}

/// Triple maker over edge indices.
pub open spec fn triple_of<E>(g: DiGraph<E>) -> spec_fn(usize) -> (int, int, int) {
    |e: usize| edge_triple(g, e as int)
}

/// Both endpoints of a triple are included.
pub open spec fn triple_pred(included: Set<int>) -> spec_fn((int, int, int)) -> bool {
    |t: (int, int, int)| included.contains(t.0) && included.contains(t.1)
}

/// The triples a node contributes: its adjacent edges in the walked
/// direction whose endpoints are both included, in adjacency order.
pub open spec fn emitted_for<E>(g: DiGraph<E>, included: Set<int>, rev: bool, u: int) -> Seq<
    (int, int, int),
> {
    (if rev {
        g.in_adj@[u]@
    } else {
        g.out_adj@[u]@
    }).map_values(triple_of(g)).filter(triple_pred(included))
}

/// Per-node contribution function.
pub open spec fn emitter<E>(g: DiGraph<E>, included: Set<int>, rev: bool) -> spec_fn(usize) -> Seq<
    (int, int, int),
> {
    |u: usize| emitted_for(g, included, rev, u as int)
}

/// Every included edge triple, grouped by node in topological order.
pub open spec fn links_seq<E>(g: DiGraph<E>, sccs: Sccs, included: Set<int>, rev: bool) -> Seq<
    (int, int, int),
> {
    ordered_nodes(sccs, rev).map_values(emitter(g, included, rev)).flatten()
}

/// The widening of an emitted triple to mathematical integers.
pub open spec fn widen_triple() -> spec_fn((usize, usize, usize)) -> (int, int, int) {
    |t: (usize, usize, usize)| (t.0 as int, t.1 as int, t.2 as int)
}

/// Filtering after a push keeps the filtered prefix and appends the new
/// element exactly when it satisfies the predicate.
pub proof fn lemma_filter_push<A>(s: Seq<A>, x: A, pred: spec_fn(A) -> bool)
    ensures
        s.push(x).filter(pred) == if pred(x) {
            s.filter(pred).push(x)
        } else {
            s.filter(pred)
        },
{
    assert(s.push(x).drop_last() =~= s);
    assert(s.push(x).last() == x);
    assert(s.push(x).len() == s.len() + 1);
    reveal_with_fuel(Seq::filter, 2);
    assert(s.push(x).filter(pred) == if pred(s.push(x).last()) {
        s.push(x).drop_last().filter(pred).push(s.push(x).last())
    } else {
        s.push(x).drop_last().filter(pred)
    });
}

/// Every element of a filtered sequence occurs in the unfiltered one.
pub proof fn lemma_filter_subset<A>(s: Seq<A>, pred: spec_fn(A) -> bool)
    ensures
        forall|i: int| 0 <= i < s.filter(pred).len() ==> s.contains(#[trigger] s.filter(pred)[i]),
    decreases s.len(),
{
    reveal_with_fuel(Seq::filter, 2);
    if s.len() != 0 {
        lemma_filter_subset(s.drop_last(), pred);
        assert forall|i: int| 0 <= i < s.filter(pred).len() implies s.contains(
            #[trigger] s.filter(pred)[i],
        ) by {
            let fd = s.drop_last().filter(pred);
            if pred(s.last()) {
                assert(s.filter(pred) == fd.push(s.last()));
            } else {
                assert(s.filter(pred) == fd);
            }
            if i < fd.len() {
                assert(s.drop_last().contains(fd[i]));
                let k = choose|k: int| 0 <= k < s.drop_last().len() && s.drop_last()[k] == fd[i];
                assert(s[k] == fd[i]);
            } else {
                assert(s[s.len() - 1] == s.filter(pred)[i]);
            }
        }
    }
}

/// Filtering a duplicate-free sequence keeps it duplicate-free.
pub proof fn lemma_filter_no_dup<A>(s: Seq<A>, pred: spec_fn(A) -> bool)
    requires
        s.no_duplicates(),
    ensures
        s.filter(pred).no_duplicates(),
    decreases s.len(),
{
    reveal_with_fuel(Seq::filter, 2);
    if s.len() != 0 {
        assert(s.drop_last().no_duplicates()) by {
            assert forall|i: int, j: int|
                0 <= i < s.drop_last().len() && 0 <= j < s.drop_last().len() && i != j implies
                s.drop_last()[i] != s.drop_last()[j] by {
                assert(s[i] != s[j]);
            }
        }
        lemma_filter_no_dup(s.drop_last(), pred);
        lemma_filter_subset(s.drop_last(), pred);
        let fd = s.drop_last().filter(pred);
        if pred(s.last()) {
            assert(s.filter(pred) == fd.push(s.last()));
            assert(!fd.contains(s.last())) by {
                if fd.contains(s.last()) {
                    let i = choose|i: int| 0 <= i < fd.len() && fd[i] == s.last();
                    assert(s.drop_last().contains(fd[i]));
                    let k = choose|k: int|
                        0 <= k < s.drop_last().len() && s.drop_last()[k] == fd[i];
                    assert(s[k] == s[s.len() - 1]);
                }
            }
            assert forall|i: int, j: int|
                0 <= i < s.filter(pred).len() && 0 <= j < s.filter(pred).len() && i != j implies
                s.filter(pred)[i] != s.filter(pred)[j] by {
                if i < fd.len() && j < fd.len() {
                } else {
                    let k = if i < fd.len() {
                        i
                    } else {
                        j
                    };
                    if k < fd.len() && fd[k] == s.last() {
                        assert(fd.contains(s.last()));
                    }
                }
            }
        } else {
            assert(s.filter(pred) == fd);
        }
    }
}

/// The flattened position where row `r` starts.
pub open spec fn flat_offset<A>(rows: Seq<Seq<A>>, r: int) -> int
    decreases r,
{
    if r <= 0 {
        0
    } else {
        flat_offset(rows, r - 1) + rows[r - 1].len()
    }
}

/// Dropping the first row shifts offsets by its length.
pub proof fn lemma_flat_offset_shift<A>(rows: Seq<Seq<A>>, r: int)
    requires
        1 <= r <= rows.len(),
        rows.len() >= 1,
    ensures
        flat_offset(rows, r) == rows[0].len() + flat_offset(rows.drop_first(), r - 1),
    decreases r,
{
    if r == 1 {
        assert(flat_offset(rows, 1) == flat_offset(rows, 0) + rows[0].len());
        assert(flat_offset(rows.drop_first(), 0) == 0);
    } else {
        lemma_flat_offset_shift(rows, r - 1);
        assert(rows.drop_first()[r - 2] == rows[r - 1]);
        assert(flat_offset(rows, r) == flat_offset(rows, r - 1) + rows[r - 1].len());
        assert(flat_offset(rows.drop_first(), r - 1) == flat_offset(rows.drop_first(), r - 2)
            + rows.drop_first()[r - 2].len());
    }
}

/// Offsets never decrease with the row index.
pub proof fn lemma_flat_offset_monotone<A>(rows: Seq<Seq<A>>, r1: int, r2: int)
    requires
        0 <= r1 <= r2,
    ensures
        flat_offset(rows, r1) <= flat_offset(rows, r2),
    decreases r2 - r1,
{
    if r1 < r2 {
        lemma_flat_offset_monotone(rows, r1, r2 - 1);
    }
}

/// Element `k` of row `r` sits at its row's offset plus `k`.
pub proof fn lemma_flat_index<A>(rows: Seq<Seq<A>>, r: int, k: int)
    requires
        0 <= r < rows.len(),
        0 <= k < rows[r].len(),
    ensures
        0 <= flat_offset(rows, r) + k < rows.flatten().len(),
        rows.flatten()[flat_offset(rows, r) + k] == rows[r][k],
        flat_offset(rows, r) + k < flat_offset(rows, r + 1),
    decreases r,
{
    let rest = rows.drop_first();
    assert(rows.flatten() == rows.first() + rest.flatten());
    if r == 0 {
        assert(rows.flatten()[k] == rows[0][k]);
    } else {
        assert(rest[r - 1] == rows[r]);
        lemma_flat_index(rest, r - 1, k);
        lemma_flat_offset_shift(rows, r);
        lemma_flat_offset_shift(rows, r + 1);
        assert(rows.flatten()[rows[0].len() + flat_offset(rest, r - 1) + k] == rest.flatten()[
            flat_offset(rest, r - 1) + k]);
    }
}

/// Every flattened position comes from its row's offset plus a column.
pub proof fn lemma_flat_origin<A>(rows: Seq<Seq<A>>, i: int)
    requires
        0 <= i < rows.flatten().len(),
    ensures
        exists|r: int, k: int|
            {
                &&& 0 <= r < rows.len()
                &&& 0 <= k < rows[r].len()
                &&& i == flat_offset(rows, r) + k
                &&& rows.flatten()[i] == #[trigger] rows[r][k]
            },
    decreases rows.len(),
{
    let rest = rows.drop_first();
    assert(rows.flatten() == rows.first() + rest.flatten());
    if i < rows.first().len() {
        assert(rows.flatten()[i] == rows[0][i]);
        assert(flat_offset(rows, 0) + i == i);
    } else {
        lemma_flat_origin(rest, i - rows.first().len());
        let (r, k) = choose|r: int, k: int|
            {
                &&& 0 <= r < rest.len()
                &&& 0 <= k < rest[r].len()
                &&& i - rows.first().len() == flat_offset(rest, r) + k
                &&& rest.flatten()[i - rows.first().len()] == #[trigger] rest[r][k]
            };
        lemma_flat_offset_shift(rows, r + 1);
        assert(rest[r] == rows[r + 1]);
        assert(i == flat_offset(rows, r + 1) + k);
    }
}

/// The triples one node contributes name in-range edges anchored at that
/// node on the walked side, each edge at most once.
proof fn lemma_emitted_props<E>(g: DiGraph<E>, included: Set<int>, rev: bool, u: int)
    requires
        g.wf(),
        0 <= u < g.node_count,
    ensures
        forall|k: int|
            0 <= k < emitted_for(g, included, rev, u).len() ==> {
                let t = #[trigger] emitted_for(g, included, rev, u)[k];
                &&& 0 <= t.2 < g.edges@.len()
                &&& t == edge_triple(g, t.2)
                &&& if rev {
                    g.edges@[t.2].to == u
                } else {
                    g.edges@[t.2].from == u
                }
            },
        forall|k1: int, k2: int|
            0 <= k1 < emitted_for(g, included, rev, u).len() && 0 <= k2 < emitted_for(
                g,
                included,
                rev,
                u,
            ).len() && k1 != k2 ==> (#[trigger] emitted_for(g, included, rev, u)[k1]).2 != (
            #[trigger] emitted_for(g, included, rev, u)[k2]).2,
{
    let row = if rev {
        g.in_adj@[u]@
    } else {
        g.out_adj@[u]@
    };
    let mapped = row.map_values(triple_of(g));
    assert forall|k: int| 0 <= k < mapped.len() implies {
        let t = #[trigger] mapped[k];
        &&& 0 <= t.2 < g.edges@.len()
        &&& t == edge_triple(g, t.2)
        &&& if rev {
            g.edges@[t.2].to == u
        } else {
            g.edges@[t.2].from == u
        }
    } by {
        assert(row[k] < g.edges@.len());
    }
    lemma_filter_subset(mapped, triple_pred(included));
    let er = emitted_for(g, included, rev, u);
    assert forall|k: int| 0 <= k < er.len() implies {
        let t = #[trigger] er[k];
        &&& 0 <= t.2 < g.edges@.len()
        &&& t == edge_triple(g, t.2)
        &&& if rev {
            g.edges@[t.2].to == u
        } else {
            g.edges@[t.2].from == u
        }
    } by {
        assert(mapped.contains(er[k]));
        let k2 = choose|k2: int| 0 <= k2 < mapped.len() && mapped[k2] == er[k];
    }
    assert(mapped.no_duplicates()) by {
        assert forall|k1: int, k2: int|
            0 <= k1 < mapped.len() && 0 <= k2 < mapped.len() && k1 != k2 implies mapped[k1]
            != mapped[k2] by {
            assert(row[k1] != row[k2]);
            assert(mapped[k1].2 == row[k1] && mapped[k2].2 == row[k2]);
        }
    }
    lemma_filter_no_dup(mapped, triple_pred(included));
    assert forall|k1: int, k2: int|
        0 <= k1 < er.len() && 0 <= k2 < er.len() && k1 != k2 implies (#[trigger] er[k1]).2 != (
    #[trigger] er[k2]).2 by {
        assert(er[k1] != er[k2]);
        assert(er[k1] == edge_triple(g, er[k1].2) && er[k2] == edge_triple(g, er[k2].2));
    }
}

/// The edge iteration yields each edge index at most once: an edge occurs
/// only in the adjacency row of its anchor node, that node occurs once in
/// the order, and rows list distinct edges.
pub proof fn lemma_links_distinct<E>(g: DiGraph<E>, sccs: Sccs, included: Set<int>, rev: bool)
    requires
        g.wf(),
        sccs.wf(g),
    ensures
        forall|i: int, j: int|
            0 <= i < links_seq(g, sccs, included, rev).len() && 0 <= j < links_seq(
                g,
                sccs,
                included,
                rev,
            ).len() && i != j ==> (#[trigger] links_seq(g, sccs, included, rev)[i]).2 != (
            #[trigger] links_seq(g, sccs, included, rev)[j]).2,
{
    crate::scc::lemma_order_props(g, sccs);
    let ord = ordered_nodes(sccs, rev);
    assert(ord.no_duplicates()) by {
        if rev {
            assert forall|k1: int, k2: int|
                0 <= k1 < ord.len() && 0 <= k2 < ord.len() && k1 != k2 implies ord[k1]
                != ord[k2] by {
                assert(ord[k1] == sccs.order@[ord.len() - 1 - k1]);
                assert(ord[k2] == sccs.order@[ord.len() - 1 - k2]);
            }
        }
    }
    assert(forall|k: int| 0 <= k < ord.len() ==> (#[trigger] ord[k]) < g.node_count) by {
        if rev {
            assert forall|k: int| 0 <= k < ord.len() implies (#[trigger] ord[k])
                < g.node_count by {
                assert(ord[k] == sccs.order@[ord.len() - 1 - k]);
            }
        }
    }
    let rows = ord.map_values(emitter(g, included, rev));
    assert forall|i: int, j: int|
        0 <= i < rows.flatten().len() && 0 <= j < rows.flatten().len() && i != j implies (
    #[trigger] rows.flatten()[i]).2 != (#[trigger] rows.flatten()[j]).2 by {
        lemma_flat_origin(rows, i);
        lemma_flat_origin(rows, j);
        let (ri, ki) = choose|r: int, k: int|
            {
                &&& 0 <= r < rows.len()
                &&& 0 <= k < rows[r].len()
                &&& i == flat_offset(rows, r) + k
                &&& rows.flatten()[i] == #[trigger] rows[r][k]
            };
        let (rj, kj) = choose|r: int, k: int|
            {
                &&& 0 <= r < rows.len()
                &&& 0 <= k < rows[r].len()
                &&& j == flat_offset(rows, r) + k
                &&& rows.flatten()[j] == #[trigger] rows[r][k]
            };
        lemma_emitted_props(g, included, rev, ord[ri] as int);
        lemma_emitted_props(g, included, rev, ord[rj] as int);
        assert(rows[ri] == emitted_for(g, included, rev, ord[ri] as int));
        assert(rows[rj] == emitted_for(g, included, rev, ord[rj] as int));
        if rows.flatten()[i].2 == rows.flatten()[j].2 {
            let e = rows.flatten()[i].2;
            if rev {
                assert(g.edges@[e].to == ord[ri] && g.edges@[e].to == ord[rj]);
            } else {
                assert(g.edges@[e].from == ord[ri] && g.edges@[e].from == ord[rj]);
            }
            assert(ord[ri] == ord[rj]);
            assert(ri == rj);
            assert(ki != kj);
            assert(rows[ri][ki].2 != rows[ri][kj].2);
        }
    }
}

/// An iterator over the included nodes of a resolved set in topological
/// order. The items are precomputed; `next` walks them.
pub struct Topo {
    pub items: Vec<usize>,
    pub pos: usize,
}

impl Topo {
    /// What is still to be yielded.
    pub open spec fn remaining(self) -> Seq<usize> {
        self.items@.subrange(self.pos as int, self.items@.len() as int)
    }

    /// The next node in topological order, if any.
    pub fn next(&mut self) -> (r: Option<usize>)
        requires
            old(self).pos <= old(self).items@.len(),
        ensures
            final(self).items@ == old(self).items@,
            old(self).pos < old(self).items@.len() ==> r == Some(
                old(self).items@[old(self).pos as int],
            ) && final(self).pos == old(self).pos + 1,
            old(self).pos == old(self).items@.len() ==> r is None && final(self).pos == old(
                self,
            ).pos,
    {
        if self.pos < self.items.len() {
            let v = self.items[self.pos];
            self.pos += 1;
            Some(v)
        } else {
            None
        }
    }

    /// How many nodes are still to be yielded.
    pub fn len(&self) -> (r: usize)
        requires
            self.pos <= self.items@.len(),
        ensures
            r == self.remaining().len(),
    {
        self.items.len() - self.pos
    }

    /// The lower and upper bound on the remaining count; both are exact.
    pub fn size_hint(&self) -> (r: (usize, Option<usize>))
        requires
            self.pos <= self.items@.len(),
        ensures
            r.0 == self.remaining().len(),
            r.1 == Some(self.remaining().len() as usize),
    {
        let rem = self.items.len() - self.pos;
        (rem, Some(rem))
    }
}

/// Initial nodes of a query, with the direction to walk from them.
pub enum QueryParams {
    /// Follow edges forward from these nodes.
    Forward(Vec<usize>),
    /// Follow edges backward from these nodes.
    Reverse(Vec<usize>),
}

impl QueryParams {
    /// The initial node indices.
    pub open spec fn initials(self) -> Seq<usize> {
        match self {
            QueryParams::Forward(v) => v@,
            QueryParams::Reverse(v) => v@,
        }
    }

    /// Whether the walk is reversed.
    pub open spec fn is_reverse(self) -> bool {
        self is Reverse
    }
}

/// A resolved set of nodes of one graph.
pub struct ResolveCore {
    pub included: FixedBitSet,
    pub len: usize,
}

impl ResolveCore {
    /// The included node indices.
    pub open spec fn set(self) -> Set<int> {
        bits(self.included)
    }

    /// The set is a finite set of nodes of a graph with `n` nodes, and the
    /// stored length is its cardinality.
    pub open spec fn wf(self, n: int) -> bool {
        &&& self.set().finite()
        &&& forall|v: int| self.set().contains(v) ==> 0 <= v < n
        &&& self.len == self.set().len()
    }

    /// Resolves a query: everything reachable from the initial nodes in the
    /// requested direction.
    pub fn new<E>(graph: &DiGraph<E>, params: &QueryParams) -> (r: Self)
        requires
            graph.wf(),
            forall|k: int|
                0 <= k < params.initials().len() ==> (#[trigger] params.initials()[k])
                    < graph.node_count,
        ensures
            r.wf(graph.node_count as int),
            r.set() == reach_set(*graph, params.is_reverse(), ix_set(params.initials())),
    {
        let (included, len) = match params {
            QueryParams::Forward(initials) => {
                proof {
                    assert(params.initials() == initials@);
                    assert forall|k: int| 0 <= k < initials@.len() implies (
                    #[trigger] initials@[k]) < graph.node_count by {
                        assert(params.initials()[k] < graph.node_count);
                    }
                }
                reachable(graph, false, initials)
            },
            QueryParams::Reverse(initials) => {
                proof {
                    assert(params.initials() == initials@);
                    assert forall|k: int| 0 <= k < initials@.len() implies (
                    #[trigger] initials@[k]) < graph.node_count by {
                        assert(params.initials()[k] < graph.node_count);
                    }
                }
                reachable(graph, true, initials)
            },
        };
        ResolveCore { included, len }
    }

    /// The set of every node of the graph.
    pub fn all_nodes<E>(graph: &DiGraph<E>) -> (r: Self)
        requires
            graph.wf(),
        ensures
            r.wf(graph.node_count as int),
            r.set() == vstd::set_lib::set_int_range(0, graph.node_count as int),
    {
        let n = graph.node_count;
        let mut included = bs_new(n);
        let mut v: usize = 0;
        while v < n
            invariant
                v <= n,
            bit_capacity(included) == n,
                bits(included) =~= vstd::set_lib::set_int_range(0, v as int),
                bits(included).finite(),
            decreases n - v,
        {
            bs_insert(&mut included, v);
            v += 1;
        }
        proof {
            vstd::set_lib::lemma_int_range(0, n as int);
        }
        let len = bs_count_ones(&included);
        ResolveCore { included, len }
    }

    /// Adopts an externally built bitset; the length is its population count.
    pub fn from_included(included: FixedBitSet) -> (r: Self)
        requires
            bits_wf(included),
        ensures
            r.set() == bits(included),
            r.len == bits(included).len(),
            r.wf(bit_capacity(included) as int),
    {
        let len = bs_count_ones(&included);
        ResolveCore { included, len }
    }

    /// Number of included nodes.
    pub fn len(&self) -> (r: usize)
        ensures
            r == self.len,
    {
        self.len
    }

    /// True if nothing is included.
    pub fn is_empty(&self) -> (r: bool)
        requires
            self.wf_some(),
        ensures
            r == (self.set() =~= Set::<int>::empty()),
    {
        proof {
            if self.set().len() == 0 {
                self.set().lemma_len0_is_empty();
            } else {
                if self.set() =~= Set::<int>::empty() {
                    assert(self.set().len() == 0);
                }
            }
        }
        self.len == 0
    }

    /// The set is well-formed for some universe.
    pub open spec fn wf_some(self) -> bool {
        self.set().finite() && self.len == self.set().len()
    }

    /// Membership test.
    pub fn contains(&self, ix: usize) -> (r: bool)
        ensures
            r == self.set().contains(ix as int),
    {
        bs_contains(&self.included, ix)
    }

    /// A copy of this set.
    pub fn dup(&self) -> (r: Self)
        ensures
            r.set() == self.set(),
            r.len == self.len,
            bit_capacity(r.included) == bit_capacity(self.included),
    {
        ResolveCore { included: bs_clone(&self.included), len: self.len }
    }

    /// In-place union with `other`.
    pub fn union_with(&mut self, other: &Self)
        requires
            old(self).wf_some(),
            other.wf_some(),
        ensures
            final(self).set() == old(self).set().union(other.set()),
            final(self).wf_some(),
    {
        bs_union_with(&mut self.included, &other.included);
        proof {
            vstd::set_lib::lemma_set_union_finite_iff(old(self).set(), other.set());
        }
        self.len = bs_count_ones(&self.included);
    }

    /// In-place intersection with `other`.
    pub fn intersect_with(&mut self, other: &Self)
        requires
            old(self).wf_some(),
            other.wf_some(),
        ensures
            final(self).set() == old(self).set().intersect(other.set()),
            final(self).wf_some(),
    {
        bs_intersect_with(&mut self.included, &other.included);
        proof {
            assert(old(self).set().intersect(other.set()).subset_of(old(self).set()));
            vstd::set_lib::lemma_len_subset(
                old(self).set().intersect(other.set()),
                old(self).set(),
            );
        }
        self.len = bs_count_ones(&self.included);
    }

    /// The nodes of `self` that are not in `other`, as a new set.
    pub fn difference(&self, other: &Self) -> (r: Self)
        requires
            self.wf_some(),
            other.wf_some(),
        ensures
            r.set() == self.set().difference(other.set()),
            r.wf_some(),
    {
        let included = bs_difference(&self.included, &other.included);
        proof {
            assert(self.set().difference(other.set()).subset_of(self.set()));
            vstd::set_lib::lemma_len_subset(self.set().difference(other.set()), self.set());
        }
        let len = bs_count_ones(&included);
        ResolveCore { included, len }
    }

    /// The root nodes of this set in the given direction: the included
    /// members of every component that no included edge from another
    /// component enters (for `Forward`; leaves, for `Reverse`).
    pub fn roots<E>(&self, graph: &DiGraph<E>, sccs: &Sccs, direction: DependencyDirection) -> (r:
        Vec<usize>)
        requires
            graph.wf(),
            sccs.wf(*graph),
            self.wf(graph.node_count as int),
        ensures
            r@.no_duplicates(),
            forall|v: int|
                0 <= v < graph.node_count ==> (#[trigger] seq_has(r@, v as usize) <==> (
                self.set().contains(v) && !group_blocked(
                    *graph,
                    *sccs,
                    self.set(),
                    sccs.group_of@[v] as int,
                    direction.is_reverse(),
                ))),
            forall|i: int| 0 <= i < r@.len() ==> self.set().contains((#[trigger] r@[i]) as int),
            forall|i: int| 0 <= i < r@.len() ==> (#[trigger] r@[i]) < graph.node_count,
            forall|i: int, j: int|
                0 <= i < j < r@.len() ==> sccs.group_of@[(#[trigger] r@[i]) as int]
                    < sccs.group_of@[(#[trigger] r@[j]) as int] || (sccs.group_of@[r@[i] as int]
                    == sccs.group_of@[r@[j] as int] && r@[i] < r@[j]),
    {
        let rev = matches!(direction, DependencyDirection::Reverse);
        let ghost incl = self.set();
        let mut result: Vec<usize> = Vec::new();
        let mut gi: usize = 0;
        while gi < sccs.groups.len()
            invariant
                graph.wf(),
                sccs.wf(*graph),
                self.wf(graph.node_count as int),
                rev == direction.is_reverse(),
                incl == self.set(),
                gi <= sccs.groups@.len(),
                result@.no_duplicates(),
                forall|i: int|
                    0 <= i < result@.len() ==> (#[trigger] result@[i]) < graph.node_count
                        && incl.contains(result@[i] as int) && sccs.group_of@[result@[i] as int]
                        < gi,
                forall|i: int, j: int|
                    0 <= i < j < result@.len() ==> sccs.group_of@[(#[trigger] result@[i]) as int]
                        < sccs.group_of@[(#[trigger] result@[j]) as int] || (sccs.group_of@[
                    result@[i] as int] == sccs.group_of@[result@[j] as int] && result@[i]
                        < result@[j]),
                forall|v: int|
                    0 <= v < graph.node_count && sccs.group_of@[v] < gi ==> (#[trigger] seq_has(
                        result@,
                        v as usize,
                    ) <==> (incl.contains(v) && !group_blocked(
                        *graph,
                        *sccs,
                        incl,
                        sccs.group_of@[v] as int,
                        rev,
                    ))),
            decreases sccs.groups@.len() - gi,
        {
            // Does any included cross-component edge enter this component?
            let mut blocked = false;
            let mut e: usize = 0;
            while e < graph.edges.len()
                invariant
                    graph.wf(),
                    sccs.wf(*graph),
                    self.wf(graph.node_count as int),
                    incl == self.set(),
                    gi < sccs.groups@.len(),
                    e <= graph.edges@.len(),
                    blocked ==> group_blocked(*graph, *sccs, incl, gi as int, rev),
                    !blocked ==> forall|e2: int|
                        0 <= e2 < e ==> {
                            let u = (#[trigger] graph.edges@[e2]).from as int;
                            let v = graph.edges@[e2].to as int;
                            !(incl.contains(u) && incl.contains(v) && (if rev {
                                sccs.group_of@[u] == gi && sccs.group_of@[v] != gi
                            } else {
                                sccs.group_of@[v] == gi && sccs.group_of@[u] != gi
                            }))
                        },
                decreases graph.edges@.len() - e,
            {
                if !blocked {
                    let u = graph.edges[e].from;
                    let v = graph.edges[e].to;
                    if self.contains(u) && self.contains(v) {
                        let hit = if rev {
                            self.group_eq(sccs, u, gi) && !self.group_eq(sccs, v, gi)
                        } else {
                            self.group_eq(sccs, v, gi) && !self.group_eq(sccs, u, gi)
                        };
                        if hit {
                            blocked = true;
                        }
                    }
                }
                e += 1;
            }
            if !blocked {
                proof {
                    assert(!group_blocked(*graph, *sccs, incl, gi as int, rev));
                }
                let row = &sccs.groups[gi];
                let mut k: usize = 0;
                while k < row.len()
                    invariant
                        graph.wf(),
                        sccs.wf(*graph),
                        self.wf(graph.node_count as int),
                        incl == self.set(),
                        gi < sccs.groups@.len(),
                        row == sccs.groups@[gi as int],
                        k <= row@.len(),
                        !group_blocked(*graph, *sccs, incl, gi as int, rev),
                        result@.no_duplicates(),
                        forall|i: int|
                            0 <= i < result@.len() ==> (#[trigger] result@[i]) < graph.node_count
                                && incl.contains(result@[i] as int)
                                && sccs.group_of@[result@[i] as int] <= gi,
                        forall|i: int, j: int|
                            0 <= i < j < result@.len() ==> sccs.group_of@[(
                            #[trigger] result@[i]) as int] < sccs.group_of@[(
                            #[trigger] result@[j]) as int] || (sccs.group_of@[result@[i] as int]
                                == sccs.group_of@[result@[j] as int] && result@[i] < result@[j]),
                        forall|v: int|
                            0 <= v < graph.node_count && sccs.group_of@[v] < gi ==> (
                            #[trigger] seq_has(result@, v as usize) <==> (incl.contains(v)
                                && !group_blocked(
                                *graph,
                                *sccs,
                                incl,
                                sccs.group_of@[v] as int,
                                rev,
                            ))),
                        forall|i: int|
                            0 <= i < result@.len() && sccs.group_of@[result@[i] as int]
                                == gi ==> exists|k2: int|
                                0 <= k2 < k && row@[k2] == #[trigger] result@[i],
                        forall|k2: int|
                            0 <= k2 < k && incl.contains(#[trigger] row@[k2] as int) ==> seq_has(
                                result@,
                                row@[k2],
                            ),
                    decreases row@.len() - k,
                {
                    let v = row[k];
                    if self.contains(v) {
                        proof {
                            if seq_has(result@, v) {
                                let i = choose|i: int|
                                    0 <= i < result@.len() && #[trigger] result@[i] == v;
                                assert(sccs.group_of@[v as int] == gi);
                                let k2 = choose|k2: int|
                                    0 <= k2 < k && row@[k2] == #[trigger] result@[i];
                                assert(row@[k2] == row@[k as int]);
                                assert(sccs.groups@[gi as int]@.no_duplicates());
                                assert(false);
                            }
                            crate::scc::lemma_push_fresh(result@, v);
                        }
                        let ghost r0 = result@;
                        result.push(v);
                        proof {
                            assert(result@ == r0.push(v));
                            assert forall|v2: int|
                                0 <= v2 < graph.node_count && sccs.group_of@[v2] < gi implies (
                            #[trigger] seq_has(result@, v2 as usize) <==> (incl.contains(v2)
                                && !group_blocked(
                                *graph,
                                *sccs,
                                incl,
                                sccs.group_of@[v2] as int,
                                rev,
                            ))) by {
                                assert(seq_has(r0, v2 as usize) ==> seq_has(result@, v2 as usize))
                                    by {
                                    if seq_has(r0, v2 as usize) {
                                        let i = choose|i: int|
                                            0 <= i < r0.len() && #[trigger] r0[i] == v2 as usize;
                                        assert(result@[i] == v2 as usize);
                                    }
                                }
                                if seq_has(result@, v2 as usize) {
                                    let i = choose|i: int|
                                        0 <= i < result@.len() && #[trigger] result@[i] == v2 as usize;
                                    if i < r0.len() {
                                        assert(seq_has(r0, v2 as usize));
                                    } else {
                                        assert(v2 == v as int);
                                    }
                                }
                            }
                            assert forall|k2: int|
                                0 <= k2 < k + 1 && incl.contains(
                                #[trigger] row@[k2] as int,
                            ) implies seq_has(result@, row@[k2]) by {
                                if k2 < k {
                                    assert(seq_has(r0, row@[k2]));
                                    let i = choose|i: int|
                                        0 <= i < r0.len() && #[trigger] r0[i] == row@[k2];
                                    assert(result@[i] == row@[k2]);
                                } else {
                                    assert(result@[result@.len() - 1] == v);
                                }
                            }
                        }
                    }
                    k += 1;
                }
            }
            gi += 1;
            proof {
                assert forall|v: int|
                    0 <= v < graph.node_count && sccs.group_of@[v] < gi implies (
                #[trigger] seq_has(result@, v as usize) <==> (incl.contains(v) && !group_blocked(
                    *graph,
                    *sccs,
                    incl,
                    sccs.group_of@[v] as int,
                    rev,
                ))) by {
                    if sccs.group_of@[v] == gi - 1 {
                        assert(sccs.member_listed(v));
                        if incl.contains(v) && !group_blocked(
                            *graph,
                            *sccs,
                            incl,
                            sccs.group_of@[v] as int,
                            rev,
                        ) {
                            let k2 = choose|k2: int|
                                0 <= k2 < sccs.groups@[sccs.group_of@[v] as int].len()
                                    && sccs.groups@[sccs.group_of@[v] as int]@[k2] == v;
                            assert(seq_has(result@, sccs.groups@[(gi - 1) as int]@[k2]));
                        }
                        if seq_has(result@, v as usize) {
                            let i = choose|i: int|
                                0 <= i < result@.len() && #[trigger] result@[i] == v as usize;
                            assert(incl.contains(v));
                        }
                    }
                }
            }
        }
        proof {
            assert forall|v: int|
                0 <= v < graph.node_count implies (#[trigger] seq_has(result@, v as usize) <==> (
            incl.contains(v) && !group_blocked(
                *graph,
                *sccs,
                incl,
                sccs.group_of@[v] as int,
                direction.is_reverse(),
            ))) by {
                assert(sccs.group_of@[v] < sccs.groups@.len());
            }
        }
        result
    }

    /// The included nodes in topological order: the component order read
    /// forward, or backward for `Reverse`, keeping only included nodes.
    pub fn topo(&self, sccs: &Sccs, direction: DependencyDirection) -> (t: Topo)
        requires
            self.wf_some(),
        ensures
            t.pos == 0,
            t.items@ == topo_items(*sccs, self.set(), direction.is_reverse()),
    {
        let ghost incl = self.set();
        let ghost pred = incl_pred(incl);
        let rev = matches!(direction, DependencyDirection::Reverse);
        let mut items: Vec<usize> = Vec::new();
        let n = sccs.order.len();
        let mut i: usize = 0;
        while i < n
            invariant
                n == sccs.order@.len(),
                i <= n,
                pred == incl_pred(incl),
                incl == self.set(),
                rev == direction.is_reverse(),
                !rev ==> items@ == sccs.order@.subrange(0, i as int).filter(pred),
                rev ==> items@ == sccs.order@.reverse().subrange(0, i as int).filter(pred),
            decreases n - i,
        {
            let ghost ord = if rev {
                sccs.order@.reverse()
            } else {
                sccs.order@
            };
            let v = if rev {
                sccs.order[n - 1 - i]
            } else {
                sccs.order[i]
            };
            proof {
                assert(ord[i as int] == v);
                assert(ord.subrange(0, i + 1 as int) =~= ord.subrange(0, i as int).push(v));
                lemma_filter_push(ord.subrange(0, i as int), v, pred);
            }
            if self.contains(v) {
                items.push(v);
            }
            i += 1;
        }
        proof {
            let ord = if rev {
                sccs.order@.reverse()
            } else {
                sccs.order@
            };
            assert(ord.subrange(0, ord.len() as int) == ord);
        }
        Topo { items, pos: 0 }
    }

    /// Edge triples `(from, to, edge index)` for every edge with both
    /// endpoints included, grouped by source (target, for `Reverse`) in
    /// topological node order.
    pub fn links<E>(&self, graph: &DiGraph<E>, sccs: &Sccs, direction: DependencyDirection) -> (r:
        Vec<(usize, usize, usize)>)
        requires
            graph.wf(),
            sccs.wf(*graph),
            self.wf(graph.node_count as int),
        ensures
            r@.map_values(|t: (usize, usize, usize)| (t.0 as int, t.1 as int, t.2 as int))
                == links_seq(*graph, *sccs, self.set(), direction.is_reverse()),
            forall|i: int, j: int|
                0 <= i < r@.len() && 0 <= j < r@.len() && i != j ==> (#[trigger] r@[i]).2 != (
                #[trigger] r@[j]).2,
    {
        let ghost incl = self.set();
        let rev = matches!(direction, DependencyDirection::Reverse);
        let ghost f = widen_triple();
        let mut result: Vec<(usize, usize, usize)> = Vec::new();
        let n = sccs.order.len();
        proof {
            crate::scc::lemma_order_props(*graph, *sccs);
        }
        let mut i: usize = 0;
        while i < n
            invariant
                graph.wf(),
                sccs.wf(*graph),
                self.wf(graph.node_count as int),
                incl == self.set(),
                n == sccs.order@.len(),
                i <= n,
                rev == direction.is_reverse(),
                f == widen_triple(),
                forall|k: int|
                    0 <= k < sccs.order@.len() ==> (#[trigger] sccs.order@[k]) < graph.node_count,
                result@.map_values(f) == ordered_nodes(*sccs, rev).subrange(0, i as int).map_values(
                    emitter(*graph, incl, rev),
                ).flatten(),
            decreases n - i,
        {
            let ghost ord = ordered_nodes(*sccs, rev);
            let u = if rev {
                sccs.order[n - 1 - i]
            } else {
                sccs.order[i]
            };
            proof {
                assert(ord[i as int] == u);
            }
            let ghost r0 = result@;
            let row = if rev {
                &graph.in_adj[u]
            } else {
                &graph.out_adj[u]
            };
            let mut j: usize = 0;
            while j < row.len()
                invariant
                    graph.wf(),
                    self.wf(graph.node_count as int),
                    incl == self.set(),
                    u < graph.node_count,
                    row == if rev {
                        graph.in_adj@[u as int]
                    } else {
                        graph.out_adj@[u as int]
                    },
                    j <= row@.len(),
                    f == widen_triple(),
                    result@.map_values(f) == r0.map_values(f) + row@.subrange(0, j as int).map_values(
                        triple_of(*graph),
                    ).filter(triple_pred(incl)),
                decreases row@.len() - j,
            {
                let e = row[j];
                let from = graph.edges[e].from;
                let to = graph.edges[e].to;
                let ghost tpred = triple_pred(incl);
                let ghost triples = row@.subrange(0, j as int).map_values(triple_of(*graph));
                proof {
                    assert(row@.subrange(0, j + 1 as int) =~= row@.subrange(0, j as int).push(e));
                    assert(row@.subrange(0, j + 1 as int).map_values(triple_of(*graph))
                        =~= triples.push(edge_triple(*graph, e as int)));
                    lemma_filter_push(triples, edge_triple(*graph, e as int), tpred);
                }
                if self.contains(from) && self.contains(to) {
                    let ghost r1 = result@;
                    result.push((from, to, e));
                    proof {
                        assert(result@.map_values(f) =~= r1.map_values(f).push(
                            (from as int, to as int, e as int),
                        ));
                        assert(edge_triple(*graph, e as int) == (from as int, to as int, e as int));
                    }
                }
                j += 1;
            }
            proof {
                assert(row@.subrange(0, row@.len() as int) == row@);
                assert(result@.map_values(f) == r0.map_values(f) + emitted_for(
                    *graph,
                    incl,
                    rev,
                    u as int,
                ));
                assert(ord.subrange(0, i + 1 as int) =~= ord.subrange(0, i as int).push(u));
                assert(ord.subrange(0, i + 1 as int).map_values(emitter(*graph, incl, rev))
                    =~= ord.subrange(0, i as int).map_values(emitter(*graph, incl, rev)).push(
                    emitted_for(*graph, incl, rev, u as int),
                ));
                ord.subrange(0, i as int).map_values(emitter(*graph, incl, rev)).lemma_flatten_push(
                    emitted_for(*graph, incl, rev, u as int),
                );
            }
            i += 1;
        }
        proof {
            let ord = ordered_nodes(*sccs, rev);
            assert(ord.subrange(0, ord.len() as int) == ord);
            lemma_links_distinct(*graph, *sccs, incl, rev);
            let m = result@.map_values(f);
            assert forall|i2: int, j2: int|
                0 <= i2 < result@.len() && 0 <= j2 < result@.len() && i2 != j2 implies (
            #[trigger] result@[i2]).2 != (#[trigger] result@[j2]).2 by {
                assert(m[i2] == f(result@[i2]) && m[j2] == f(result@[j2]));
                assert(links_seq(*graph, *sccs, incl, rev)[i2].2 != links_seq(
                    *graph,
                    *sccs,
                    incl,
                    rev,
                )[j2].2);
                assert(m[i2].2 != m[j2].2);
            }
        }
        result
    }

    /// Component index equality helper for included nodes.
    fn group_eq(&self, sccs: &Sccs, v: usize, gi: usize) -> (r: bool)
        requires
            v < sccs.group_of@.len(),
        ensures
            r == (sccs.group_of@[v as int] == gi),
    {
        sccs.group_of[v] == gi
    }

    /// In-place symmetric difference with `other`.
    pub fn symmetric_difference_with(&mut self, other: &Self)
        requires
            old(self).wf_some(),
            other.wf_some(),
        ensures
            final(self).set() == old(self).set().union(other.set()).difference(
                old(self).set().intersect(other.set()),
            ),
            final(self).wf_some(),
    {
        bs_symmetric_difference_with(&mut self.included, &other.included);
        proof {
            let u = old(self).set().union(other.set());
            vstd::set_lib::lemma_set_union_finite_iff(old(self).set(), other.set());
            assert(u.difference(old(self).set().intersect(other.set())).subset_of(u));
            vstd::set_lib::lemma_len_subset(
                u.difference(old(self).set().intersect(other.set())),
                u,
            );
        }
        self.len = bs_count_ones(&self.included);
    }
}

} // verus!
