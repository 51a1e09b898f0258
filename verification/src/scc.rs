//! Strongly connected components, enumerated in topological order.
//!
//! Feature graphs may legally contain cycles, so topological iteration is
//! defined over the SCC condensation: nodes are emitted group by group, with
//! every edge between distinct groups pointing from an earlier group to a
//! later one. Groups are computed from per-node reach sets: two nodes share a
//! group exactly when each reaches the other, and groups are ordered by
//! strictly decreasing reach-set size, which refines the condensation order.

use vstd::prelude::*;
use vstd::set_lib::lemma_len_subset;
use fixedbitset::FixedBitSet;
use crate::bitset::{bits, bit_capacity, bits_wf, bs_contains};
use crate::digraph::DiGraph;
use crate::reach::{
    ix_set, is_walk, lemma_reach_closed, lemma_reach_init, lemma_reach_step, reach_set, reaches,
    reaches_from, step,
};

verus! {

/// `u` and `v` lie on a common cycle (or are the same node).
pub open spec fn in_same_scc<E>(g: DiGraph<E>, u: int, v: int) -> bool {
    reaches(g, u, v) && reaches(g, v, u)
}

/// Reachability is reflexive on in-range nodes.
pub proof fn lemma_reaches_refl<E>(g: DiGraph<E>, v: int)
    requires
        0 <= v < g.node_count,
    ensures
        reaches(g, v, v),
{
    lemma_reach_init(g, false, Set::empty().insert(v), v);
}

/// An edge gives reachability.
pub proof fn lemma_reaches_edge<E>(g: DiGraph<E>, u: int, v: int)
    requires
        g.has_edge(u, v),
        0 <= u < g.node_count,
        0 <= v < g.node_count,
    ensures
        reaches(g, u, v),
{
    lemma_reaches_refl(g, u);
    lemma_reach_step(g, false, Set::empty().insert(u), u, v);
}

/// A walk's nodes are in range; in particular its endpoints.
pub proof fn lemma_reaches_bounds<E>(g: DiGraph<E>, u: int, v: int)
    requires
        reaches(g, u, v),
    ensures
        0 <= u < g.node_count,
        0 <= v < g.node_count,
{
    let p = choose|p: Seq<int>|
        #[trigger] is_walk(g, false, p) && Set::empty().insert(u).contains(p[0]) && p[p.len() - 1]
            == v;
    assert(p[0] == u && 0 <= p[0] < g.node_count);
    assert(0 <= p[p.len() - 1] < g.node_count);
}

/// Reachability is transitive.
pub proof fn lemma_reaches_trans<E>(g: DiGraph<E>, u: int, v: int, w: int)
    requires
        reaches(g, u, v),
        reaches(g, v, w),
    ensures
        reaches(g, u, w),
{
    lemma_reaches_bounds(g, u, v);
    let s = reach_set(g, false, Set::empty().insert(u));
    assert forall|a: int, b: int|
        s.contains(a) && #[trigger] step(g, false, a, b) && 0 <= b < g.node_count implies s.contains(
        b,
    ) by {
        lemma_reach_step(g, false, Set::empty().insert(u), a, b);
    }
    assert forall|i: int|
        Set::empty().insert(v).contains(i) && 0 <= i < g.node_count implies s.contains(i) by {
        assert(i == v);
    }
    lemma_reach_closed(g, false, Set::empty().insert(v), s, w);
}

/// Being in the same component is transitive.
pub proof fn lemma_same_scc_trans<E>(g: DiGraph<E>, u: int, v: int, w: int)
    requires
        in_same_scc(g, u, v),
        in_same_scc(g, v, w),
    ensures
        in_same_scc(g, u, w),
{
    lemma_reaches_trans(g, u, v, w);
    lemma_reaches_trans(g, w, v, u);
}

/// Everything node `v` reaches, following edges forward.
pub open spec fn rset<E>(g: DiGraph<E>, v: int) -> Set<int> {
    reach_set(g, false, Set::empty().insert(v))
}

/// `c` is the least node sharing `v`'s component.
pub open spec fn canon_ok<E>(g: DiGraph<E>, c: usize, v: int) -> bool {
    &&& c <= v
    &&& in_same_scc(g, c as int, v)
    &&& forall|j: int| 0 <= j < c ==> !in_same_scc(g, j, v)
}

/// `v` occurs in `s`.
pub open spec fn seq_has(s: Seq<usize>, v: usize) -> bool {
    exists|i: int| 0 <= i < s.len() && s[i] == v
}

/// Nodes of one component share their least member.
pub proof fn lemma_canon_class<E>(g: DiGraph<E>, cu: usize, cv: usize, u: int, v: int)
    requires
        canon_ok(g, cu, u),
        canon_ok(g, cv, v),
        in_same_scc(g, u, v),
    ensures
        cu == cv,
{
    lemma_same_scc_trans(g, cu as int, u, v);
    lemma_same_scc_trans(g, cv as int, v, u);
    if cu < cv {
        assert(!in_same_scc(g, cu as int, v));
    } else if cv < cu {
        assert(!in_same_scc(g, cv as int, u));
    }
}

/// The strongly connected components of a graph, in topological order.
///
/// `groups[i]` lists the nodes of component `i` in ascending order;
/// `group_of[v]` is the component of node `v`; `order` is the concatenation
/// of the groups. Every edge between distinct components points from a
/// lower-numbered component to a higher-numbered one, so `order` read
/// forward is a topological order and read backward a reverse one.
pub struct Sccs {
    pub groups: Vec<Vec<usize>>,
    pub group_of: Vec<usize>,
    pub order: Vec<usize>,
}

impl Sccs {
    /// Node `v` appears in the group assigned to it.
    pub open spec fn member_listed(self, v: int) -> bool {
        exists|k: int|
            0 <= k < self.groups@[self.group_of@[v] as int].len()
                && self.groups@[self.group_of@[v] as int]@[k] == v
    }

    /// The groups, flattened in order, as integer node indices.
    pub open spec fn flat(self) -> Seq<int> {
        self.groups@.map_values(|grp: Vec<usize>| grp@.map_values(|x: usize| x as int)).flatten()
    }

    /// The component structure describes `g` exactly.
    pub open spec fn wf<E>(self, g: DiGraph<E>) -> bool {
        &&& self.group_of@.len() == g.node_count
        &&& forall|v: int|
            0 <= v < g.node_count ==> (#[trigger] self.group_of@[v]) < self.groups@.len()
        &&& forall|gi: int, k: int|
            0 <= gi < self.groups@.len() && 0 <= k < self.groups@[gi].len() ==> {
                &&& (#[trigger] self.groups@[gi]@[k]) < g.node_count
                &&& self.group_of@[self.groups@[gi]@[k] as int] == gi
            }
        &&& forall|gi: int| 0 <= gi < self.groups@.len() ==> (#[trigger] self.groups@[gi]@).no_duplicates()
        &&& forall|gi: int, k1: int, k2: int|
            0 <= gi < self.groups@.len() && 0 <= k1 < k2 < self.groups@[gi].len() ==> (
            #[trigger] self.groups@[gi]@[k1]) < (#[trigger] self.groups@[gi]@[k2])
        &&& forall|v: int| 0 <= v < g.node_count ==> #[trigger] self.member_listed(v)
        &&& forall|u: int, v: int|
            0 <= u < g.node_count && 0 <= v < g.node_count ==> ((self.group_of@[u]
                == self.group_of@[v]) <==> #[trigger] in_same_scc(g, u, v))
        &&& forall|e: int|
            0 <= e < g.edges@.len() ==> self.group_of@[(#[trigger] g.edges@[e]).from as int]
                <= self.group_of@[g.edges@[e].to as int]
        &&& self.order@.map_values(|x: usize| x as int) == self.flat()
    }

    /// Number of components.
    pub fn group_count(&self) -> (r: usize)
        ensures
            r == self.groups@.len(),
    {
        self.groups.len()
    }

    /// The component of node `v`.
    pub fn group_of_node(&self, v: usize) -> (r: usize)
        requires
            v < self.group_of@.len(),
        ensures
            r == self.group_of@[v as int],
    {
        self.group_of[v]
    }

    /// Computes the components of `g` from per-node reach sets.
    #[verifier::rlimit(60)]
    pub fn new<E>(g: &DiGraph<E>) -> (r: Sccs)
        requires
            g.wf(),
        ensures
            r.wf(*g),
    {
        let n = g.node_count;
        let (sets, counts) = compute_reach(g);
        let canon = compute_canon(g, &sets);
        proof {
            assert forall|v: int| 0 <= v < n implies (#[trigger] counts@[v]) == rset(*g, v).len()
                && rset(*g, v).finite() by {
                assert(bits(sets@[v]) == rset(*g, v));
            }
            assert forall|v: int| 0 <= v < n implies (#[trigger] rset(*g, v)).finite() by {
                assert(counts@[v] == rset(*g, v).len());
            }
        }
        let rs = compute_roots_sorted(g, &canon, &counts);
        // Position of each representative in the sorted order.
        let mut pos_of: Vec<usize> = Vec::new();
        let mut v: usize = 0;
        while v < n
            invariant
                pos_of@.len() == v,
                v <= n,
            decreases n - v,
        {
            pos_of.push(0);
            v += 1;
        }
        let mut i: usize = 0;
        while i < rs.len()
            invariant
                g.wf(),
                n == g.node_count,
                pos_of@.len() == n,
                i <= rs@.len(),
                rs@.no_duplicates(),
                forall|j: int|
                    0 <= j < rs@.len() ==> (#[trigger] rs@[j]) < n,
                forall|j: int| 0 <= j < i ==> pos_of@[(#[trigger] rs@[j]) as int] == j,
            decreases rs@.len() - i,
        {
            let target = rs[i];
            pos_of.set(target, i);
            proof {
                assert forall|j: int| 0 <= j < i + 1 implies pos_of@[(#[trigger] rs@[j]) as int]
                    == j by {
                    if j < i {
                        assert(rs@[j] != rs@[i as int]);
                    }
                }
            }
            i += 1;
        }
        // Component of each node: the position of its representative.
        let mut group_of: Vec<usize> = Vec::new();
        v = 0;
        while v < n
            invariant
                g.wf(),
                n == g.node_count,
                canon@.len() == n,
                pos_of@.len() == n,
                v <= n,
                group_of@.len() == v,
                rs@.no_duplicates(),
                forall|w: int| 0 <= w < n ==> canon_ok(*g, #[trigger] canon@[w], w),
                forall|w: int|
                    0 <= w < n && canon@[w] == w ==> seq_has(rs@, #[trigger] canon@[w]),
                forall|j: int|
                    0 <= j < rs@.len() ==> (#[trigger] rs@[j]) < n && canon@[rs@[j] as int]
                        == rs@[j],
                forall|j: int| 0 <= j < rs@.len() ==> pos_of@[(#[trigger] rs@[j]) as int] == j,
                forall|w: int|
                    0 <= w < v ==> (#[trigger] group_of@[w]) < rs@.len() && rs@[group_of@[w] as int]
                        == canon@[w],
            decreases n - v,
        {
            let cv = canon[v];
            proof {
                assert(canon_ok(*g, canon@[v as int], v as int));
                assert(canon_ok(*g, canon@[cv as int], cv as int));
                lemma_canon_class(*g, canon@[cv as int], cv, cv as int, v as int);
                assert(canon@[cv as int] == cv);
                assert(seq_has(rs@, cv));
                let j = choose|j: int| 0 <= j < rs@.len() && #[trigger] rs@[j] == cv;
                assert(pos_of@[cv as int] == j);
            }
            group_of.push(pos_of[cv]);
            v += 1;
        }
        // Members of each component, ascending.
        let mut groups: Vec<Vec<usize>> = Vec::new();
        i = 0;
        while i < rs.len()
            invariant
                i <= rs@.len(),
                groups@.len() == i,
                forall|j: int| 0 <= j < i ==> (#[trigger] groups@[j])@.len() == 0,
            decreases rs@.len() - i,
        {
            groups.push(Vec::new());
            i += 1;
        }
        v = 0;
        while v < n
            invariant
                g.wf(),
                n == g.node_count,
                group_of@.len() == n,
                groups@.len() == rs@.len(),
                v <= n,
                forall|w: int|
                    0 <= w < n ==> (#[trigger] group_of@[w]) < rs@.len(),
                forall|gi: int, k: int|
                    0 <= gi < groups@.len() && 0 <= k < groups@[gi].len() ==> {
                        &&& (#[trigger] groups@[gi]@[k]) < v
                        &&& group_of@[groups@[gi]@[k] as int] == gi
                    },
                forall|gi: int, k1: int, k2: int|
                    0 <= gi < groups@.len() && 0 <= k1 < k2 < groups@[gi].len() ==> (
                    #[trigger] groups@[gi]@[k1]) < (#[trigger] groups@[gi]@[k2]),
                forall|w: int|
                    0 <= w < v ==> seq_has(#[trigger] groups@[group_of@[w] as int]@, w as usize),
            decreases n - v,
        {
            let gi = group_of[v];
            let mut row: Vec<usize> = Vec::new();
            groups.set_and_swap(gi, &mut row);
            let ghost row0 = row@;
            row.push(v);
            groups.set_and_swap(gi, &mut row);
            proof {
                assert(groups@[gi as int]@ == row0.push(v));
                assert forall|w: int|
                    0 <= w < v + 1 implies seq_has(
                    #[trigger] groups@[group_of@[w] as int]@,
                    w as usize,
                ) by {
                    if w == v as int {
                        assert(groups@[gi as int]@[row0.len() as int] == v);
                    } else {
                        let gw = group_of@[w] as int;
                        if gw == gi as int {
                            let k = choose|k: int| 0 <= k < row0.len() && #[trigger] row0[k] == w as usize;
                            assert(groups@[gi as int]@[k] == w as usize);
                        }
                    }
                }
            }
            v += 1;
        }
        // Concatenate the groups into one topological node order.
        let mut order: Vec<usize> = Vec::new();
        let mut gi: usize = 0;
        while gi < groups.len()
            invariant
                gi <= groups@.len(),
                order@.map_values(|x: usize| x as int) == groups@.subrange(
                    0,
                    gi as int,
                ).map_values(|grp: Vec<usize>| grp@.map_values(|x: usize| x as int)).flatten(),
            decreases groups@.len() - gi,
        {
            let ghost order0 = order@;
            let row_len = groups[gi].len();
            let mut k: usize = 0;
            while k < row_len
                invariant
                    gi < groups@.len(),
                    row_len == groups@[gi as int]@.len(),
                    k <= row_len,
                    order@.map_values(|x: usize| x as int) == order0.map_values(|x: usize| x as int)
                        + groups@[gi as int]@.subrange(0, k as int).map_values(
                        |x: usize| x as int,
                    ),
                decreases row_len - k,
            {
                let ghost o1 = order@;
                order.push(groups[gi][k]);
                proof {
                    let f = |x: usize| x as int;
                    assert(order@ == o1.push(groups@[gi as int]@[k as int]));
                    assert(order@.map_values(f) =~= o1.map_values(f).push(
                        groups@[gi as int]@[k as int] as int,
                    ));
                    assert(groups@[gi as int]@.subrange(0, k + 1 as int).map_values(f)
                        =~= groups@[gi as int]@.subrange(0, k as int).map_values(f).push(
                        groups@[gi as int]@[k as int] as int,
                    ));
                    assert(order@.map_values(f) =~= order0.map_values(f)
                        + groups@[gi as int]@.subrange(0, k + 1 as int).map_values(f));
                }
                k += 1;
            }
            proof {
                let f = |x: usize| x as int;
                let rows = |grp: Vec<usize>| grp@.map_values(f);
                assert(groups@[gi as int]@.subrange(0, row_len as int) == groups@[gi as int]@);
                assert(groups@.subrange(0, gi + 1 as int) =~= groups@.subrange(0, gi as int).push(
                    groups@[gi as int],
                ));
                assert(groups@.subrange(0, gi + 1 as int).map_values(rows) =~= groups@.subrange(
                    0,
                    gi as int,
                ).map_values(rows).push(rows(groups@[gi as int])));
                groups@.subrange(0, gi as int).map_values(rows).lemma_flatten_push(
                    rows(groups@[gi as int]),
                );
            }
            gi += 1;
        }
        proof {
            assert(groups@.subrange(0, groups@.len() as int) == groups@);
        }
        let sccs = Sccs { groups, group_of, order };
        proof {
            lemma_assembled_wf(*g, sccs, canon@, counts@, rs@);
        }
        sccs
    }

    /// Whether two nodes share a component.
    pub fn in_same_group<E>(&self, g: &DiGraph<E>, u: usize, v: usize) -> (r: bool)
        requires
            self.wf(*g),
            u < g.node_count,
            v < g.node_count,
        ensures
            r == in_same_scc(*g, u as int, v as int),
    {
        self.group_of[u] == self.group_of[v]
    }
}

/// Every element of a flattened sequence satisfies what all inner elements do.
proof fn lemma_flatten_elems(ss: Seq<Seq<int>>, p: spec_fn(int) -> bool)
    requires
        forall|i: int, k: int|
            0 <= i < ss.len() && 0 <= k < ss[i].len() ==> p(#[trigger] ss[i][k]),
    ensures
        forall|m: int| 0 <= m < ss.flatten().len() ==> p(#[trigger] ss.flatten()[m]),
    decreases ss.len(),
{
    if ss.len() != 0 {
        let rest = ss.drop_first();
        assert(ss.flatten() == ss.first() + rest.flatten());
        lemma_flatten_elems(rest, p);
        assert forall|m: int| 0 <= m < ss.flatten().len() implies p(#[trigger] ss.flatten()[m]) by {
            if m < ss.first().len() {
                assert(ss.flatten()[m] == ss[0][m]);
            } else {
                assert(ss.flatten()[m] == rest.flatten()[m - ss.first().len()]);
            }
        }
    }
}

/// Every inner element occurs in the flattened sequence.
proof fn lemma_flatten_member(ss: Seq<Seq<int>>, i: int, k: int)
    requires
        0 <= i < ss.len(),
        0 <= k < ss[i].len(),
    ensures
        ss.flatten().contains(ss[i][k]),
    decreases i,
{
    let rest = ss.drop_first();
    assert(ss.flatten() == ss.first() + rest.flatten());
    if i == 0 {
        assert(ss.flatten()[k] == ss[0][k]);
    } else {
        lemma_flatten_member(rest, i - 1, k);
        assert(rest[i - 1] == ss[i]);
        let m = choose|m: int| 0 <= m < rest.flatten().len() && rest.flatten()[m] == ss[i][k];
        assert(ss.flatten()[ss.first().len() + m] == ss[i][k]);
    }
}

/// Every element of a flattened sequence comes from some inner sequence.
proof fn lemma_flatten_origin(ss: Seq<Seq<int>>, m: int)
    requires
        0 <= m < ss.flatten().len(),
    ensures
        exists|i: int, k: int|
            0 <= i < ss.len() && 0 <= k < ss[i].len() && #[trigger] ss[i][k] == ss.flatten()[m],
    decreases ss.len(),
{
    let rest = ss.drop_first();
    assert(ss.flatten() == ss.first() + rest.flatten());
    if m < ss.first().len() {
        assert(ss[0][m] == ss.flatten()[m]);
    } else {
        lemma_flatten_origin(rest, m - ss.first().len());
        let (i, k) = choose|i: int, k: int|
            0 <= i < rest.len() && 0 <= k < rest[i].len() && #[trigger] rest[i][k]
                == rest.flatten()[m - ss.first().len()];
        assert(ss[i + 1][k] == ss.flatten()[m]);
    }
}

/// Flattening duplicate-free, pairwise disjoint sequences gives a
/// duplicate-free sequence.
proof fn lemma_flatten_no_dup(ss: Seq<Seq<int>>)
    requires
        forall|i: int| 0 <= i < ss.len() ==> (#[trigger] ss[i]).no_duplicates(),
        forall|i: int, j: int, k: int, l: int|
            0 <= i < ss.len() && 0 <= j < ss.len() && i != j && 0 <= k < ss[i].len() && 0 <= l
                < ss[j].len() ==> #[trigger] ss[i][k] != #[trigger] ss[j][l],
    ensures
        ss.flatten().no_duplicates(),
    decreases ss.len(),
{
    if ss.len() != 0 {
        let rest = ss.drop_first();
        assert(ss.flatten() == ss.first() + rest.flatten());
        lemma_flatten_no_dup(rest);
        let f = ss.flatten();
        assert forall|m1: int, m2: int|
            0 <= m1 < f.len() && 0 <= m2 < f.len() && m1 != m2 implies f[m1] != f[m2] by {
            let a = ss.first().len() as int;
            if m1 < a && m2 < a {
                assert(ss[0].no_duplicates());
                assert(f[m1] == ss[0][m1] && f[m2] == ss[0][m2]);
            } else if m1 >= a && m2 >= a {
                assert(f[m1] == rest.flatten()[m1 - a] && f[m2] == rest.flatten()[m2 - a]);
            } else {
                let mf = if m1 < a {
                    m1
                } else {
                    m2
                };
                let mr = if m1 < a {
                    m2
                } else {
                    m1
                };
                assert(f[mf] == ss[0][mf]);
                assert(f[mr] == rest.flatten()[mr - a]);
                lemma_flatten_origin(rest, mr - a);
                let (i, k) = choose|i: int, k: int|
                    0 <= i < rest.len() && 0 <= k < rest[i].len() && #[trigger] rest[i][k]
                        == rest.flatten()[mr - a];
                assert(ss[i + 1][k] == rest.flatten()[mr - a]);
                assert(ss[0][mf] != ss[i + 1][k]);
            }
        }
    }
}

/// Consequences of `wf` for the stored node order: it is a duplicate-free
/// enumeration of exactly the graph's nodes.
pub proof fn lemma_order_props<E>(g: DiGraph<E>, sccs: Sccs)
    requires
        sccs.wf(g),
    ensures
        sccs.order@.len() == g.node_count,
        sccs.order@.no_duplicates(),
        forall|k: int|
            0 <= k < sccs.order@.len() ==> (#[trigger] sccs.order@[k]) < g.node_count,
        forall|v: int| 0 <= v < g.node_count ==> #[trigger] seq_has(sccs.order@, v as usize),
        ix_set(sccs.order@) == vstd::set_lib::set_int_range(0, g.node_count as int),
{
    let n = g.node_count as int;
    let rows = sccs.groups@.map_values(|grp: Vec<usize>| grp@.map_values(|x: usize| x as int));
    let m = sccs.order@.map_values(|x: usize| x as int);
    assert(m == rows.flatten());
    // Inner rows: in-range, duplicate-free, pairwise disjoint.
    assert forall|i: int, k: int|
        0 <= i < rows.len() && 0 <= k < rows[i].len() implies 0 <= #[trigger] rows[i][k] < n by {
        assert(rows[i][k] == sccs.groups@[i]@[k] as int);
    }
    lemma_flatten_elems(rows, |x: int| 0 <= x < n);
    assert forall|i: int| 0 <= i < rows.len() implies (#[trigger] rows[i]).no_duplicates() by {
        let grp = sccs.groups@[i]@;
        assert(grp.no_duplicates());
        assert forall|k1: int, k2: int|
            0 <= k1 < rows[i].len() && 0 <= k2 < rows[i].len() && k1 != k2 implies rows[i][k1]
            != rows[i][k2] by {
            assert(grp[k1] != grp[k2]);
        }
    }
    assert forall|i: int, j: int, k: int, l: int|
        0 <= i < rows.len() && 0 <= j < rows.len() && i != j && 0 <= k < rows[i].len() && 0 <= l
            < rows[j].len() implies #[trigger] rows[i][k] != #[trigger] rows[j][l] by {
        let a = sccs.groups@[i]@[k];
        let b = sccs.groups@[j]@[l];
        assert(sccs.group_of@[a as int] == i && sccs.group_of@[b as int] == j);
    }
    lemma_flatten_no_dup(rows);
    // The order seq itself is duplicate-free.
    assert(sccs.order@.no_duplicates()) by {
        assert forall|k1: int, k2: int|
            0 <= k1 < sccs.order@.len() && 0 <= k2 < sccs.order@.len() && k1 != k2 implies
            sccs.order@[k1] != sccs.order@[k2] by {
            assert(m[k1] != m[k2]);
        }
    }
    assert forall|k: int| 0 <= k < sccs.order@.len() implies (#[trigger] sccs.order@[k])
        < g.node_count by {
        assert(0 <= m[k] < n);
    }
    // Coverage: every node is listed.
    assert forall|v: int| 0 <= v < n implies #[trigger] seq_has(sccs.order@, v as usize) by {
        assert(sccs.member_listed(v));
        let k = choose|k: int|
            0 <= k < sccs.groups@[sccs.group_of@[v] as int].len()
                && sccs.groups@[sccs.group_of@[v] as int]@[k] == v;
        let gi = sccs.group_of@[v] as int;
        assert(rows[gi][k] == v);
        lemma_flatten_member(rows, gi, k);
        let mm = choose|mm: int| 0 <= mm < m.len() && m[mm] == v;
        assert(sccs.order@[mm] == v as usize);
    }
    // The named index set is exactly the node range.
    assert(ix_set(sccs.order@) =~= vstd::set_lib::set_int_range(0, n)) by {
        assert forall|v: int| ix_set(sccs.order@).contains(v) implies
            vstd::set_lib::set_int_range(0, n).contains(v) by {
            let k = choose|k: int| 0 <= k < m.len() && #[trigger] m[k] == v;
            assert(sccs.order@[k] < g.node_count);
        }
        assert forall|v: int| vstd::set_lib::set_int_range(0, n).contains(v) implies ix_set(
            sccs.order@,
        ).contains(v) by {
            assert(seq_has(sccs.order@, v as usize));
            let k = choose|k: int| 0 <= k < sccs.order@.len() && sccs.order@[k] == v as usize;
            assert(m[k] == v);
        }
    }
    // Cardinality matches the node count.
    assert(sccs.order@.len() == g.node_count) by {
        crate::reach::lemma_distinct_bounded_len(sccs.order@, n);
        vstd::set_lib::lemma_int_range(0, n);
    }
}

/// From the construction facts, the assembled structure satisfies `wf`.
#[verifier::rlimit(60)]
proof fn lemma_assembled_wf<E>(
    g: DiGraph<E>,
    sccs: Sccs,
    canon: Seq<usize>,
    counts: Seq<usize>,
    rs: Seq<usize>,
)
    requires
        g.wf(),
        canon.len() == g.node_count,
        counts.len() == g.node_count,
        forall|w: int| 0 <= w < g.node_count ==> canon_ok(g, #[trigger] canon[w], w),
        forall|w: int|
            0 <= w < g.node_count ==> (#[trigger] counts[w]) == rset(g, w).len() && rset(
                g,
                w,
            ).finite(),
        rs.no_duplicates(),
        forall|j: int|
            0 <= j < rs.len() ==> (#[trigger] rs[j]) < g.node_count && canon[rs[j] as int]
                == rs[j],
        forall|i: int, j: int|
            0 <= i < j < rs.len() ==> counts[rs[i] as int] >= counts[rs[j] as int],
        sccs.group_of@.len() == g.node_count,
        forall|w: int|
            0 <= w < g.node_count ==> (#[trigger] sccs.group_of@[w]) < rs.len()
                && rs[sccs.group_of@[w] as int] == canon[w],
        sccs.groups@.len() == rs.len(),
        forall|gi: int, k: int|
            0 <= gi < sccs.groups@.len() && 0 <= k < sccs.groups@[gi].len() ==> {
                &&& (#[trigger] sccs.groups@[gi]@[k]) < g.node_count
                &&& sccs.group_of@[sccs.groups@[gi]@[k] as int] == gi
            },
        forall|gi: int, k1: int, k2: int|
            0 <= gi < sccs.groups@.len() && 0 <= k1 < k2 < sccs.groups@[gi].len() ==> (
            #[trigger] sccs.groups@[gi]@[k1]) < (#[trigger] sccs.groups@[gi]@[k2]),
        forall|w: int|
            0 <= w < g.node_count ==> seq_has(
                #[trigger] sccs.groups@[sccs.group_of@[w] as int]@,
                w as usize,
            ),
        sccs.order@.map_values(|x: usize| x as int) == sccs.flat(),
    ensures
        sccs.wf(g),
{
    let n = g.node_count;
    assert forall|gi: int| 0 <= gi < sccs.groups@.len() implies (
    #[trigger] sccs.groups@[gi]@).no_duplicates() by {
        assert forall|k1: int, k2: int|
            0 <= k1 < sccs.groups@[gi]@.len() && 0 <= k2 < sccs.groups@[gi]@.len() && k1
                != k2 implies sccs.groups@[gi]@[k1] != sccs.groups@[gi]@[k2] by {
            if k1 < k2 {
                assert(sccs.groups@[gi]@[k1] < sccs.groups@[gi]@[k2]);
            } else {
                assert(sccs.groups@[gi]@[k2] < sccs.groups@[gi]@[k1]);
            }
        }
    }
    assert forall|v: int| 0 <= v < n implies #[trigger] sccs.member_listed(v) by {
        assert(seq_has(sccs.groups@[sccs.group_of@[v] as int]@, v as usize));
        let k = choose|k: int|
            0 <= k < sccs.groups@[sccs.group_of@[v] as int]@.len()
                && #[trigger] sccs.groups@[sccs.group_of@[v] as int]@[k] == v as usize;
        assert(sccs.groups@[sccs.group_of@[v] as int]@[k] == v);
    }
    assert forall|u: int, v: int| 0 <= u < n && 0 <= v < n implies ((sccs.group_of@[u]
        == sccs.group_of@[v]) <==> #[trigger] in_same_scc(g, u, v)) by {
        let cu = canon[u];
        let cv = canon[v];
        assert(canon_ok(g, cu, u) && canon_ok(g, cv, v));
        if sccs.group_of@[u] == sccs.group_of@[v] {
            assert(cu == cv);
            assert(in_same_scc(g, cu as int, u) && in_same_scc(g, cu as int, v));
            lemma_same_scc_trans(g, u, cu as int, v);
            assert(in_same_scc(g, u, v));
        }
        if in_same_scc(g, u, v) {
            lemma_canon_class(g, cu, cv, u, v);
            assert(rs[sccs.group_of@[u] as int] == rs[sccs.group_of@[v] as int]);
            if sccs.group_of@[u] != sccs.group_of@[v] {
                assert(rs[sccs.group_of@[u] as int] != rs[sccs.group_of@[v] as int]);
            }
        }
    }
    assert forall|e: int|
        0 <= e < g.edges@.len() implies sccs.group_of@[(#[trigger] g.edges@[e]).from as int]
        <= sccs.group_of@[g.edges@[e].to as int] by {
        let u = g.edges@[e].from as int;
        let v = g.edges@[e].to as int;
        assert(g.has_edge(u, v));
        lemma_reaches_edge(g, u, v);
        let cu = canon[u];
        let cv = canon[v];
        assert(canon_ok(g, cu, u) && canon_ok(g, cv, v));
        if in_same_scc(g, u, v) {
            lemma_canon_class(g, cu, cv, u, v);
            if sccs.group_of@[u] != sccs.group_of@[v] {
                assert(rs[sccs.group_of@[u] as int] != rs[sccs.group_of@[v] as int]);
            }
            assert(sccs.group_of@[u] == sccs.group_of@[v]);
        } else {
            // The source's representative reaches strictly more than the
            // target's, so it sits earlier in the sorted order.
            assert(reaches(g, cu as int, u) && reaches(g, u, v) && reaches(g, v, cv as int));
            lemma_reaches_trans(g, cu as int, u, v);
            lemma_reaches_trans(g, cu as int, v, cv as int);
            assert(rset(g, cv as int).subset_of(rset(g, cu as int))) by {
                assert forall|w: int| rset(g, cv as int).contains(w) implies rset(
                    g,
                    cu as int,
                ).contains(w) by {
                    lemma_reaches_trans(g, cu as int, cv as int, w);
                }
            }
            lemma_reaches_refl(g, cu as int);
            assert(rset(g, cu as int).contains(cu as int));
            assert(!rset(g, cv as int).contains(cu as int)) by {
                if reaches(g, cv as int, cu as int) {
                    assert(in_same_scc(g, cu as int, cv as int));
                    lemma_same_scc_trans(g, u, cu as int, cv as int);
                    lemma_same_scc_trans(g, u, cv as int, v);
                    assert(false);
                }
            }
            rset(g, cv as int).lemma_subset_not_in_lt(rset(g, cu as int), cu as int);
            assert(counts[cv as int] < counts[cu as int]);
            let pu = sccs.group_of@[u] as int;
            let pv = sccs.group_of@[v] as int;
            assert(rs[pu] == cu && rs[pv] == cv);
            if pu > pv {
                assert(counts[rs[pv] as int] >= counts[rs[pu] as int]);
                assert(false);
            }
            if pu == pv {
                assert(cu == cv);
                lemma_same_scc_trans(g, u, cu as int, v);
                assert(false);
            }
        }
    }
}

/// The reach set of every node, as bitsets, with cardinalities.
fn compute_reach<E>(g: &DiGraph<E>) -> (res: (Vec<FixedBitSet>, Vec<usize>))
    requires
        g.wf(),
    ensures
        res.0@.len() == g.node_count,
        res.1@.len() == g.node_count,
        forall|v: int|
            0 <= v < g.node_count ==> bits(#[trigger] res.0@[v]) == rset(*g, v),
        forall|v: int| 0 <= v < g.node_count ==> bits(#[trigger] res.0@[v]).finite(),
        forall|v: int|
            0 <= v < g.node_count ==> (#[trigger] res.1@[v]) == bits(res.0@[v]).len(),
{
    let mut sets: Vec<FixedBitSet> = Vec::new();
    let mut counts: Vec<usize> = Vec::new();
    let mut v: usize = 0;
    while v < g.node_count
        invariant
            g.wf(),
            v <= g.node_count,
            sets@.len() == v,
            counts@.len() == v,
            forall|k: int| 0 <= k < v ==> bits(#[trigger] sets@[k]) == rset(*g, k),
            forall|k: int| 0 <= k < v ==> bits(#[trigger] sets@[k]).finite(),
            forall|k: int| 0 <= k < v ==> (#[trigger] counts@[k]) == bits(sets@[k]).len(),
        decreases g.node_count - v,
    {
        let mut init: Vec<usize> = Vec::new();
        init.push(v);
        proof {
            let m = init@.map_values(|t: usize| t as int);
            assert(m.len() == 1 && m[0] == v as int);
            assert(ix_set(init@) =~= Set::empty().insert(v as int)) by {
                assert forall|y: int| ix_set(init@).contains(y) implies y == v as int by {
                    let k = choose|k: int| 0 <= k < m.len() && #[trigger] m[k] == y;
                }
                assert(m.to_set().contains(m[0]));
            }
        }
        let (bs, c) = crate::reach::reachable(g, false, &init);
        sets.push(bs);
        counts.push(c);
        v += 1;
    }
    (sets, counts)
}

/// Pushing a fresh element keeps a sequence duplicate-free.
pub proof fn lemma_push_fresh(s: Seq<usize>, x: usize)
    requires
        s.no_duplicates(),
        !seq_has(s, x),
    ensures
        s.push(x).no_duplicates(),
{
    let t = s.push(x);
    assert forall|i: int, j: int| 0 <= i < t.len() && 0 <= j < t.len() && i != j implies t[i]
        != t[j] by {
        if i < s.len() && j < s.len() {
            assert(s[i] != s[j]);
        } else {
            let k = if i < s.len() {
                i
            } else {
                j
            };
            if s[k] == x {
                assert(seq_has(s, x));
            }
        }
    }
}

/// Component representatives, ordered by strictly decreasing reach-set size
/// (ties by node index). Every least member of a component appears once.
fn compute_roots_sorted<E>(g: &DiGraph<E>, canon: &Vec<usize>, counts: &Vec<usize>) -> (rs: Vec<
    usize,
>)
    requires
        g.wf(),
        canon@.len() == g.node_count,
        counts@.len() == g.node_count,
        forall|v: int| 0 <= v < g.node_count ==> canon_ok(*g, #[trigger] canon@[v], v),
        forall|v: int|
            0 <= v < g.node_count ==> (#[trigger] counts@[v]) == rset(*g, v).len(),
        forall|v: int| 0 <= v < g.node_count ==> (#[trigger] rset(*g, v)).finite(),
    ensures
        rs@.no_duplicates(),
        forall|i: int|
            0 <= i < rs@.len() ==> (#[trigger] rs@[i]) < g.node_count && canon@[rs@[i] as int]
                == rs@[i],
        forall|i: int, j: int|
            0 <= i < j < rs@.len() ==> counts@[rs@[i] as int] >= counts@[rs@[j] as int],
        forall|v: int|
            0 <= v < g.node_count && canon@[v] == v ==> seq_has(rs@, #[trigger] canon@[v]),
{
    let n = g.node_count;
    proof {
        // Reach-set sizes are between 1 and the node count.
        assert forall|v: int| 0 <= v < n implies 1 <= #[trigger] counts@[v] <= n by {
            lemma_reaches_refl(*g, v);
            assert(rset(*g, v).contains(v));
            assert(Set::empty().insert(v).subset_of(rset(*g, v)));
            lemma_len_subset(Set::empty().insert(v), rset(*g, v));
            assert(rset(*g, v).subset_of(vstd::set_lib::set_int_range(0, n as int))) by {
                assert forall|w: int| rset(*g, v).contains(w) implies
                    vstd::set_lib::set_int_range(0, n as int).contains(w) by {
                    crate::scc::lemma_reaches_bounds(*g, v, w);
                }
            }
            vstd::set_lib::lemma_int_range(0, n as int);
            lemma_len_subset(rset(*g, v), vstd::set_lib::set_int_range(0, n as int));
        }
    }
    let mut rs: Vec<usize> = Vec::new();
    let mut c: usize = n;
    while c >= 1
        invariant
            g.wf(),
            n == g.node_count,
            canon@.len() == n,
            counts@.len() == n,
            c <= n,
            forall|v: int| 0 <= v < n ==> canon_ok(*g, #[trigger] canon@[v], v),
            forall|v: int| 0 <= v < n ==> 1 <= #[trigger] counts@[v] <= n,
            rs@.no_duplicates(),
            forall|i: int|
                0 <= i < rs@.len() ==> (#[trigger] rs@[i]) < n && canon@[rs@[i] as int] == rs@[i]
                    && counts@[rs@[i] as int] > c,
            forall|i: int, j: int|
                0 <= i < j < rs@.len() ==> counts@[rs@[i] as int] >= counts@[rs@[j] as int],
            forall|v: int|
                0 <= v < n && #[trigger] canon@[v] == v && counts@[v] > c ==> seq_has(rs@, rs_elt(canon@, v)),
        decreases c,
    {
        let ghost rs0 = rs@;
        let mut v: usize = 0;
        while v < n
            invariant
                g.wf(),
                n == g.node_count,
                canon@.len() == n,
                counts@.len() == n,
                1 <= c <= n,
                v <= n,
                forall|w: int| 0 <= w < n ==> canon_ok(*g, #[trigger] canon@[w], w),
                forall|w: int| 0 <= w < n ==> 1 <= #[trigger] counts@[w] <= n,
                rs@.no_duplicates(),
                rs@.len() >= rs0.len(),
                rs@.subrange(0, rs0.len() as int) == rs0,
                forall|i: int|
                    0 <= i < rs0.len() ==> counts@[#[trigger] rs0[i] as int] > c,
                forall|i: int|
                    rs0.len() <= i < rs@.len() ==> counts@[(#[trigger] rs@[i]) as int] == c
                        && rs@[i] < v,
                forall|i: int|
                    0 <= i < rs@.len() ==> (#[trigger] rs@[i]) < n && canon@[rs@[i] as int]
                        == rs@[i] && counts@[rs@[i] as int] >= c,
                forall|i: int, j: int|
                    0 <= i < j < rs@.len() ==> counts@[rs@[i] as int] >= counts@[rs@[j] as int],
                forall|w: int|
                    0 <= w < n && #[trigger] canon@[w] == w && (counts@[w] > c || (counts@[w] == c
                        && w < v)) ==> seq_has(rs@, rs_elt(canon@, w)),
            decreases n - v,
        {
            if canon[v] == v && counts[v] == c {
                proof {
                    if seq_has(rs@, v) {
                        let i = choose|i: int| 0 <= i < rs@.len() && rs@[i] == v;
                        if i < rs0.len() {
                            assert(counts@[rs0[i] as int] > c);
                        } else {
                            assert(rs@[i] < v);
                        }
                    }
                    lemma_push_fresh(rs@, v);
                }
                let ghost before = rs@;
                rs.push(v);
                proof {
                    assert(rs@ == before.push(v));
                    assert(rs@.subrange(0, rs0.len() as int) =~= rs0);
                    assert forall|i: int, j: int|
                        0 <= i < j < rs@.len() implies counts@[rs@[i] as int] >= counts@[rs@[j] as int] by {
                        if j == rs@.len() - 1 {
                            assert(counts@[rs@[i] as int] >= c);
                        }
                    }
                    assert forall|w: int|
                        0 <= w < n && #[trigger] canon@[w] == w && (counts@[w] > c || (counts@[w]
                            == c && w < v + 1)) implies seq_has(rs@, rs_elt(canon@, w)) by {
                        if w == v as int {
                            assert(rs@[rs@.len() - 1] == v);
                        } else {
                            assert(seq_has(before, rs_elt(canon@, w)));
                            let i = choose|i: int|
                                0 <= i < before.len() && before[i] == rs_elt(canon@, w);
                            assert(rs@[i] == rs_elt(canon@, w));
                        }
                    }
                }
            }
            v += 1;
        }
        c -= 1;
        proof {
            assert forall|w: int|
                0 <= w < n && #[trigger] canon@[w] == w && counts@[w] > c implies seq_has(
                rs@,
                rs_elt(canon@, w),
            ) by {
                assert(counts@[w] > c + 1 || (counts@[w] == c + 1 && w < n));
            }
        }
    }
    proof {
        assert forall|v: int| 0 <= v < n && canon@[v] == v implies seq_has(
            rs@,
            #[trigger] canon@[v],
        ) by {
            assert(counts@[v] > 0);
            assert(seq_has(rs@, rs_elt(canon@, v)));
            assert(rs_elt(canon@, v) == canon@[v]);
        }
    }
    rs
}

/// The canonical entry of `v`, used to keep quantifier instantiation stable.
pub open spec fn rs_elt(canon: Seq<usize>, v: int) -> usize {
    canon[v]
}

/// The least same-component partner of every node.
fn compute_canon<E>(g: &DiGraph<E>, sets: &Vec<FixedBitSet>) -> (canon: Vec<usize>)
    requires
        g.wf(),
        sets@.len() == g.node_count,
        forall|v: int| 0 <= v < g.node_count ==> bits(#[trigger] sets@[v]) == rset(*g, v),
    ensures
        canon@.len() == g.node_count,
        forall|v: int| 0 <= v < g.node_count ==> canon_ok(*g, #[trigger] canon@[v], v),
{
    let mut canon: Vec<usize> = Vec::new();
    let mut v: usize = 0;
    while v < g.node_count
        invariant
            g.wf(),
            sets@.len() == g.node_count,
            forall|k: int| 0 <= k < g.node_count ==> bits(#[trigger] sets@[k]) == rset(*g, k),
            v <= g.node_count,
            canon@.len() == v,
            forall|k: int| 0 <= k < v ==> canon_ok(*g, #[trigger] canon@[k], k),
        decreases g.node_count - v,
    {
        let mut u: usize = 0;
        let mut picked: usize = v;
        let mut found = false;
        while u < v + 1
            invariant
                g.wf(),
                sets@.len() == g.node_count,
                forall|k: int| 0 <= k < g.node_count ==> bits(#[trigger] sets@[k]) == rset(*g, k),
                v < g.node_count,
                u <= v + 1,
                !found ==> forall|j: int| 0 <= j < u ==> !in_same_scc(*g, j, v as int),
                found ==> canon_ok(*g, picked, v as int),
            decreases v + 1 - u,
        {
            if !found {
                let fwd = bs_contains(&sets[v], u);
                let bwd = bs_contains(&sets[u], v);
                proof {
                    assert(bits(sets@[v as int]).contains(u as int) == reaches(
                        *g,
                        v as int,
                        u as int,
                    ));
                    assert(bits(sets@[u as int]).contains(v as int) == reaches(
                        *g,
                        u as int,
                        v as int,
                    ));
                }
                if fwd && bwd {
                    picked = u;
                    found = true;
                }
            }
            u += 1;
        }
        proof {
            if !found {
                lemma_reaches_refl(*g, v as int);
                assert(in_same_scc(*g, v as int, v as int));
                assert(false);
            }
        }
        canon.push(picked);
        v += 1;
    }
    canon
}

} // verus!
