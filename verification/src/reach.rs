//! Reachability over a directed graph.
//!
//! The kernel computes, as a bitset, every node reachable from a set of
//! initial nodes by following edges forward, or backward when `rev` is set.
//! Reachability is specified through walks: finite non-empty node sequences
//! whose consecutive entries are joined by an edge in the direction walked.

use vstd::prelude::*;
use vstd::set_lib::lemma_len_subset;
use fixedbitset::FixedBitSet;
use crate::bitset::{bits, bit_capacity, bits_wf, bs_contains, bs_insert, bs_new};
use crate::digraph::DiGraph;

verus! {

/// One traversal step from `u` to `v`: an edge `u -> v`, or `v -> u` when
/// walking in reverse.
pub open spec fn step<E>(g: DiGraph<E>, rev: bool, u: int, v: int) -> bool {
    if rev {
        g.has_edge(v, u)
    } else {
        g.has_edge(u, v)
    }
}

/// A walk: a non-empty sequence of in-range nodes joined by steps.
pub open spec fn is_walk<E>(g: DiGraph<E>, rev: bool, p: Seq<int>) -> bool {
    &&& p.len() >= 1
    &&& forall|k: int| 0 <= k < p.len() ==> 0 <= #[trigger] p[k] < g.node_count
    &&& forall|k: int| 0 <= k < p.len() - 1 ==> step(g, rev, #[trigger] p[k], p[k + 1])
}

/// `v` is reachable from some node of `inits`.
pub open spec fn reaches_from<E>(g: DiGraph<E>, rev: bool, inits: Set<int>, v: int) -> bool {
    exists|p: Seq<int>|
        #[trigger] is_walk(g, rev, p) && inits.contains(p[0]) && p[p.len() - 1] == v
}

/// Everything reachable from `inits`.
pub open spec fn reach_set<E>(g: DiGraph<E>, rev: bool, inits: Set<int>) -> Set<int> {
    Set::new(|v: int| reaches_from(g, rev, inits, v))
}

/// `v` is reachable from `u` alone, following edges forward.
pub open spec fn reaches<E>(g: DiGraph<E>, u: int, v: int) -> bool {
    reaches_from(g, false, Set::empty().insert(u), v)
}

/// The integer set named by a vector of node indices.
pub open spec fn ix_set(s: Seq<usize>) -> Set<int> {
    s.map_values(|x: usize| x as int).to_set()
}

/// An in-range initial node is reachable from its own set.
pub proof fn lemma_reach_init<E>(g: DiGraph<E>, rev: bool, inits: Set<int>, v: int)
    requires
        inits.contains(v),
        0 <= v < g.node_count,
    ensures
        reaches_from(g, rev, inits, v),
{
    let p = seq![v];
    assert(is_walk(g, rev, p));
    assert(inits.contains(p[0]) && p[p.len() - 1] == v);
}

/// Reachability extends along one further step.
pub proof fn lemma_reach_step<E>(g: DiGraph<E>, rev: bool, inits: Set<int>, u: int, v: int)
    requires
        reaches_from(g, rev, inits, u),
        step(g, rev, u, v),
        0 <= v < g.node_count,
    ensures
        reaches_from(g, rev, inits, v),
{
    let p = choose|p: Seq<int>|
        #[trigger] is_walk(g, rev, p) && inits.contains(p[0]) && p[p.len() - 1] == u;
    let q = p.push(v);
    assert(is_walk(g, rev, q)) by {
        assert(forall|k: int| 0 <= k < p.len() ==> q[k] == #[trigger] p[k]);
        assert(q[q.len() - 2] == u && q[q.len() - 1] == v);
        assert forall|k: int| 0 <= k < q.len() - 1 implies step(g, rev, #[trigger] q[k], q[k + 1]) by {
            if k < p.len() - 1 {
                assert(step(g, rev, p[k], p[k + 1]));
            }
        }
    }
    assert(inits.contains(q[0]) && q[q.len() - 1] == v);
}

/// A set that contains the initial nodes and is closed under steps contains
/// everything reachable.
pub proof fn lemma_reach_closed<E>(g: DiGraph<E>, rev: bool, inits: Set<int>, s: Set<int>, v: int)
    requires
        forall|i: int| inits.contains(i) && 0 <= i < g.node_count ==> s.contains(i),
        forall|u: int, w: int|
            s.contains(u) && #[trigger] step(g, rev, u, w) && 0 <= w < g.node_count ==> s.contains(
                w,
            ),
        reaches_from(g, rev, inits, v),
    ensures
        s.contains(v),
{
    let p = choose|p: Seq<int>|
        #[trigger] is_walk(g, rev, p) && inits.contains(p[0]) && p[p.len() - 1] == v;
    lemma_walk_in_closed(g, rev, inits, s, p);
}

proof fn lemma_walk_in_closed<E>(g: DiGraph<E>, rev: bool, inits: Set<int>, s: Set<int>, p: Seq<
    int,
>)
    requires
        forall|i: int| inits.contains(i) && 0 <= i < g.node_count ==> s.contains(i),
        forall|u: int, w: int|
            s.contains(u) && #[trigger] step(g, rev, u, w) && 0 <= w < g.node_count ==> s.contains(
                w,
            ),
        is_walk(g, rev, p),
        inits.contains(p[0]),
    ensures
        s.contains(p[p.len() - 1]),
    decreases p.len(),
{
    if p.len() == 1 {
        assert(s.contains(p[0]));
    } else {
        let q = p.drop_last();
        assert(is_walk(g, rev, q)) by {
            assert(forall|k: int| 0 <= k < q.len() ==> q[k] == #[trigger] p[k]);
            assert forall|k: int| 0 <= k < q.len() - 1 implies step(g, rev, #[trigger] q[k], q[k + 1]) by {
                assert(step(g, rev, p[k], p[k + 1]));
            }
        }
        lemma_walk_in_closed(g, rev, inits, s, q);
        assert(step(g, rev, p[p.len() - 2], p[p.len() - 1]));
    }
}

/// One traversal step through an edge of the allowed set: the edge joins
/// `u` to `v` in the walked direction and its index is allowed.
pub open spec fn step_filtered<E>(
    g: DiGraph<E>,
    allowed: Set<int>,
    rev: bool,
    u: int,
    v: int,
) -> bool {
    exists|e: int|
        0 <= e < g.edges@.len() && allowed.contains(e) && (#[trigger] g.edges@[e]).from == (
        if rev {
            v
        } else {
            u
        }) && g.edges@[e].to == (if rev {
            u
        } else {
            v
        })
}

/// A walk through allowed edges only.
pub open spec fn is_walk_filtered<E>(
    g: DiGraph<E>,
    allowed: Set<int>,
    rev: bool,
    p: Seq<int>,
) -> bool {
    &&& p.len() >= 1
    &&& forall|k: int| 0 <= k < p.len() ==> 0 <= #[trigger] p[k] < g.node_count
    &&& forall|k: int|
        0 <= k < p.len() - 1 ==> step_filtered(g, allowed, rev, #[trigger] p[k], p[k + 1])
}

/// `v` is reachable from some node of `inits` through allowed edges.
pub open spec fn reaches_from_filtered<E>(
    g: DiGraph<E>,
    allowed: Set<int>,
    rev: bool,
    inits: Set<int>,
    v: int,
) -> bool {
    exists|p: Seq<int>|
        #[trigger] is_walk_filtered(g, allowed, rev, p) && inits.contains(p[0]) && p[p.len() - 1]
            == v
}

/// Everything reachable from `inits` through allowed edges.
pub open spec fn reach_set_filtered<E>(
    g: DiGraph<E>,
    allowed: Set<int>,
    rev: bool,
    inits: Set<int>,
) -> Set<int> {
    Set::new(|v: int| reaches_from_filtered(g, allowed, rev, inits, v))
}

/// An in-range initial node is reachable whatever the allowed edges.
pub proof fn lemma_filtered_reach_init<E>(
    g: DiGraph<E>,
    allowed: Set<int>,
    rev: bool,
    inits: Set<int>,
    v: int,
)
    requires
        inits.contains(v),
        0 <= v < g.node_count,
    ensures
        reaches_from_filtered(g, allowed, rev, inits, v),
{
    let p = seq![v];
    assert(is_walk_filtered(g, allowed, rev, p));
    assert(inits.contains(p[0]) && p[p.len() - 1] == v);
}

/// Filtered reachability extends along one further allowed step.
pub proof fn lemma_filtered_reach_step<E>(
    g: DiGraph<E>,
    allowed: Set<int>,
    rev: bool,
    inits: Set<int>,
    u: int,
    v: int,
)
    requires
        reaches_from_filtered(g, allowed, rev, inits, u),
        step_filtered(g, allowed, rev, u, v),
        0 <= v < g.node_count,
    ensures
        reaches_from_filtered(g, allowed, rev, inits, v),
{
    let p = choose|p: Seq<int>|
        #[trigger] is_walk_filtered(g, allowed, rev, p) && inits.contains(p[0]) && p[p.len() - 1]
            == u;
    let q = p.push(v);
    assert(is_walk_filtered(g, allowed, rev, q)) by {
        assert(forall|k: int| 0 <= k < p.len() ==> q[k] == #[trigger] p[k]);
        assert(q[q.len() - 2] == u && q[q.len() - 1] == v);
        assert forall|k: int|
            0 <= k < q.len() - 1 implies step_filtered(g, allowed, rev, #[trigger] q[k], q[k + 1]) by {
            if k < p.len() - 1 {
                assert(step_filtered(g, allowed, rev, p[k], p[k + 1]));
            }
        }
    }
    assert(inits.contains(q[0]) && q[q.len() - 1] == v);
}

/// A set containing the initial nodes and closed under allowed steps
/// contains everything filtered-reachable.
pub proof fn lemma_filtered_reach_closed<E>(
    g: DiGraph<E>,
    allowed: Set<int>,
    rev: bool,
    inits: Set<int>,
    s: Set<int>,
    v: int,
)
    requires
        forall|i: int| inits.contains(i) && 0 <= i < g.node_count ==> s.contains(i),
        forall|u: int, w: int|
            s.contains(u) && #[trigger] step_filtered(g, allowed, rev, u, w) && 0 <= w
                < g.node_count ==> s.contains(w),
        reaches_from_filtered(g, allowed, rev, inits, v),
    ensures
        s.contains(v),
{
    let p = choose|p: Seq<int>|
        #[trigger] is_walk_filtered(g, allowed, rev, p) && inits.contains(p[0]) && p[p.len() - 1]
            == v;
    lemma_filtered_walk_in_closed(g, allowed, rev, inits, s, p);
}

proof fn lemma_filtered_walk_in_closed<E>(
    g: DiGraph<E>,
    allowed: Set<int>,
    rev: bool,
    inits: Set<int>,
    s: Set<int>,
    p: Seq<int>,
)
    requires
        forall|i: int| inits.contains(i) && 0 <= i < g.node_count ==> s.contains(i),
        forall|u: int, w: int|
            s.contains(u) && #[trigger] step_filtered(g, allowed, rev, u, w) && 0 <= w
                < g.node_count ==> s.contains(w),
        is_walk_filtered(g, allowed, rev, p),
        inits.contains(p[0]),
    ensures
        s.contains(p[p.len() - 1]),
    decreases p.len(),
{
    if p.len() == 1 {
        assert(s.contains(p[0]));
    } else {
        let q = p.drop_last();
        assert(is_walk_filtered(g, allowed, rev, q)) by {
            assert(forall|k: int| 0 <= k < q.len() ==> q[k] == #[trigger] p[k]);
            assert forall|k: int|
                0 <= k < q.len() - 1 implies step_filtered(
                g,
                allowed,
                rev,
                #[trigger] q[k],
                q[k + 1],
            ) by {
                assert(step_filtered(g, allowed, rev, p[k], p[k + 1]));
            }
        }
        lemma_filtered_walk_in_closed(g, allowed, rev, inits, s, q);
        assert(step_filtered(g, allowed, rev, p[p.len() - 2], p[p.len() - 1]));
    }
}

/// The edges both of whose endpoints lie in `vis`.
pub open spec fn edges_within<E>(g: DiGraph<E>, vis: Set<int>) -> Set<int> {
    Set::new(
        |e: int|
            0 <= e < g.edges@.len() && vis.contains(g.edges@[e].from as int) && vis.contains(
                g.edges@[e].to as int,
            ),
    )
}

/// Visiting one more node through an edge out of a visited node keeps
/// every visited node reachable through the edges lying within the
/// enlarged set.
pub proof fn lemma_visit_step<E>(
    g: DiGraph<E>,
    rev: bool,
    inits: Set<int>,
    vis: Set<int>,
    u: int,
    e: int,
    v: int,
)
    requires
        0 <= e < g.edges@.len(),
        if rev {
            g.edges@[e].to == u && g.edges@[e].from == v
        } else {
            g.edges@[e].from == u && g.edges@[e].to == v
        },
        vis.contains(u),
        0 <= v < g.node_count,
        forall|w: int|
            vis.contains(w) ==> reaches_from_filtered(g, edges_within(g, vis), rev, inits, w),
    ensures
        forall|w: int|
            vis.insert(v).contains(w) ==> reaches_from_filtered(
                g,
                edges_within(g, vis.insert(v)),
                rev,
                inits,
                w,
            ),
{
    let a1 = edges_within(g, vis);
    let a2 = edges_within(g, vis.insert(v));
    assert(a1.subset_of(a2)) by {
        assert forall|e2: int| a1.contains(e2) implies a2.contains(e2) by {
            assert(vis.insert(v).contains(g.edges@[e2].from as int));
            assert(vis.insert(v).contains(g.edges@[e2].to as int));
        }
    }
    assert forall|w: int| vis.contains(w) implies reaches_from_filtered(
        g,
        a2,
        rev,
        inits,
        w,
    ) by {
        lemma_filtered_reach_mono(g, a1, a2, rev, inits, w);
    }
    assert(a2.contains(e)) by {
        assert(vis.insert(v).contains(g.edges@[e].from as int));
        assert(vis.insert(v).contains(g.edges@[e].to as int));
    }
    assert(step_filtered(g, a2, rev, u, v));
    lemma_filtered_reach_step(g, a2, rev, inits, u, v);
}

/// Allowing more edges only extends filtered reachability.
pub proof fn lemma_filtered_reach_mono<E>(
    g: DiGraph<E>,
    allowed1: Set<int>,
    allowed2: Set<int>,
    rev: bool,
    inits: Set<int>,
    v: int,
)
    requires
        allowed1.subset_of(allowed2),
        reaches_from_filtered(g, allowed1, rev, inits, v),
    ensures
        reaches_from_filtered(g, allowed2, rev, inits, v),
{
    let p = choose|p: Seq<int>|
        #[trigger] is_walk_filtered(g, allowed1, rev, p) && inits.contains(p[0]) && p[p.len() - 1]
            == v;
    assert(is_walk_filtered(g, allowed2, rev, p)) by {
        assert forall|k: int|
            0 <= k < p.len() - 1 implies step_filtered(g, allowed2, rev, #[trigger] p[k], p[k + 1]) by {
            assert(step_filtered(g, allowed1, rev, p[k], p[k + 1]));
            let e = choose|e: int|
                0 <= e < g.edges@.len() && allowed1.contains(e) && (#[trigger] g.edges@[e]).from
                    == (if rev {
                    p[k + 1]
                } else {
                    p[k]
                }) && g.edges@[e].to == (if rev {
                    p[k]
                } else {
                    p[k + 1]
                });
            assert(allowed2.contains(e));
        }
    }
}

/// A walk through allowed edges is a walk.
pub proof fn lemma_filtered_implies_full<E>(
    g: DiGraph<E>,
    allowed: Set<int>,
    rev: bool,
    inits: Set<int>,
    v: int,
)
    requires
        reaches_from_filtered(g, allowed, rev, inits, v),
    ensures
        reaches_from(g, rev, inits, v),
{
    let p = choose|p: Seq<int>|
        #[trigger] is_walk_filtered(g, allowed, rev, p) && inits.contains(p[0]) && p[p.len() - 1]
            == v;
    assert(is_walk(g, rev, p)) by {
        assert forall|k: int| 0 <= k < p.len() - 1 implies step(g, rev, #[trigger] p[k], p[k + 1]) by {
            assert(step_filtered(g, allowed, rev, p[k], p[k + 1]));
            let e = choose|e: int|
                0 <= e < g.edges@.len() && allowed.contains(e) && (#[trigger] g.edges@[e]).from
                    == (if rev {
                    p[k + 1]
                } else {
                    p[k]
                }) && g.edges@[e].to == (if rev {
                    p[k]
                } else {
                    p[k + 1]
                });
            assert(g.edges@[e].from == g.edges@[e].from && g.edges@[e].to == g.edges@[e].to);
        }
    }
}

/// Multi-source traversal: the bitset of every node reachable from
/// `initials` (all of which must be in range), with its cardinality.
pub fn reachable<E>(g: &DiGraph<E>, rev: bool, initials: &Vec<usize>) -> (res: (FixedBitSet, usize))
    requires
        g.wf(),
        forall|k: int| 0 <= k < initials@.len() ==> #[trigger] initials@[k] < g.node_count,
    ensures
        bits(res.0) =~= reach_set(*g, rev, ix_set(initials@)),
        bits_wf(res.0),
        bit_capacity(res.0) == g.node_count,
        res.1 == bits(res.0).len(),
{
    let ghost inits = ix_set(initials@);
    let mut visited = bs_new(g.node_count);
    let mut queue: Vec<usize> = Vec::new();
    let mut i: usize = 0;
    while i < initials.len()
        invariant
            g.wf(),
            forall|k: int| 0 <= k < initials@.len() ==> #[trigger] initials@[k] < g.node_count,
            inits == ix_set(initials@),
            i <= initials@.len(),
            bit_capacity(visited) == g.node_count,
            bits(visited).finite(),
            queue@.no_duplicates(),
            bits(visited) =~= ix_set(queue@),
            forall|k: int| 0 <= k < queue@.len() ==> #[trigger] queue@[k] < g.node_count,
            forall|v: int| bits(visited).contains(v) ==> reaches_from(*g, rev, inits, v),
            forall|k: int|
                0 <= k < i ==> bits(visited).contains(#[trigger] initials@[k] as int),
        decreases initials@.len() - i,
    {
        let x = initials[i];
        proof {
            assert(initials@.map_values(|t: usize| t as int)[i as int] == x as int);
            lemma_reach_init(*g, rev, inits, x as int);
        }
        if !bs_contains(&visited, x) {
            let ghost q0 = queue@;
            proof {
                lemma_push_no_dup(q0, x);
                lemma_ix_set_push(q0, x);
            }
            bs_insert(&mut visited, x);
            queue.push(x);
            proof {
                assert(queue@ == q0.push(x));
                assert(bits(visited) =~= ix_set(queue@));
                lemma_distinct_bounded_len(queue@, g.node_count as int);
            }
        }
        i += 1;
    }
    proof {
        lemma_distinct_bounded_len(queue@, g.node_count as int);
    }
    let mut qpos: usize = 0;
    while qpos < queue.len()
        invariant
            g.wf(),
            bit_capacity(visited) == g.node_count,
            bits(visited).finite(),
            queue@.no_duplicates(),
            bits(visited) =~= ix_set(queue@),
            qpos <= queue@.len(),
            queue@.len() <= g.node_count,
            forall|k: int| 0 <= k < queue@.len() ==> #[trigger] queue@[k] < g.node_count,
            forall|v: int| bits(visited).contains(v) ==> reaches_from(*g, rev, inits, v),
            forall|k: int| 0 <= k < initials@.len() ==> bits(visited).contains(
                #[trigger] initials@[k] as int,
            ),
            forall|k: int, w: int|
                0 <= k < qpos && #[trigger] step(*g, rev, queue@[k] as int, w) && 0 <= w
                    < g.node_count ==> bits(visited).contains(w),
        decreases g.node_count - qpos,
    {
        let u = queue[qpos];
        let row = if rev {
            &g.in_adj[u]
        } else {
            &g.out_adj[u]
        };
        let mut j: usize = 0;
        while j < row.len()
            invariant
                g.wf(),
                u < g.node_count,
                qpos < queue@.len(),
                queue@[qpos as int] == u,
                row == if rev {
                    g.in_adj@[u as int]
                } else {
                    g.out_adj@[u as int]
                },
                j <= row@.len(),
                bit_capacity(visited) == g.node_count,
                bits(visited).finite(),
                queue@.no_duplicates(),
                bits(visited) =~= ix_set(queue@),
                queue@.len() <= g.node_count,
                forall|k: int| 0 <= k < queue@.len() ==> #[trigger] queue@[k] < g.node_count,
                forall|v: int| bits(visited).contains(v) ==> reaches_from(*g, rev, inits, v),
                forall|k: int| 0 <= k < initials@.len() ==> bits(visited).contains(
                    #[trigger] initials@[k] as int,
                ),
                forall|k: int, w: int|
                    0 <= k < qpos && #[trigger] step(*g, rev, queue@[k] as int, w) && 0 <= w
                        < g.node_count ==> bits(visited).contains(w),
                forall|jj: int|
                    0 <= jj < j ==> bits(visited).contains(
                        {
                            let ee = #[trigger] row@[jj] as int;
                            if rev {
                                g.edges@[ee].from as int
                            } else {
                                g.edges@[ee].to as int
                            }
                        },
                    ),
            decreases row@.len() - j,
        {
            let e = row[j];
            let v = if rev {
                g.edges[e].from
            } else {
                g.edges[e].to
            };
            proof {
                assert(bits(visited).contains(u as int)) by {
                    let m = queue@.map_values(|t: usize| t as int);
                    assert(m[qpos as int] == u as int);
                    assert(m.to_set().contains(u as int));
                }
                assert(step(*g, rev, u as int, v as int)) by {
                    if rev {
                        assert(g.edges@[e as int].to == u && g.edges@[e as int].from == v);
                    } else {
                        assert(g.edges@[e as int].from == u && g.edges@[e as int].to == v);
                    }
                }
                lemma_reach_step(*g, rev, inits, u as int, v as int);
            }
            if !bs_contains(&visited, v) {
                let ghost q0 = queue@;
                proof {
                    lemma_push_no_dup(q0, v);
                    lemma_ix_set_push(q0, v);
                }
                bs_insert(&mut visited, v);
                queue.push(v);
                proof {
                    assert(queue@ == q0.push(v));
                    assert(bits(visited) =~= ix_set(queue@));
                    lemma_distinct_bounded_len(queue@, g.node_count as int);
                    assert(queue@[qpos as int] == u);
                }
            }
            j += 1;
        }
        proof {
            // Every step out of u leads to a visited node.
            assert forall|w: int|
                #[trigger] step(*g, rev, u as int, w) && 0 <= w < g.node_count implies bits(
                visited,
            ).contains(w) by {
                if rev {
                    assert(g.has_edge(w, u as int));
                    let e = choose|e: int|
                        0 <= e < g.edges@.len() && (#[trigger] g.edges@[e]).from == w
                            && g.edges@[e].to == u;
                    assert(g.in_listed(e));
                    let k = choose|k: int|
                        0 <= k < g.in_adj@[g.edges@[e].to as int].len()
                            && g.in_adj@[g.edges@[e].to as int]@[k] == e;
                    assert(row@[k] == e);
                } else {
                    assert(g.has_edge(u as int, w));
                    let e = choose|e: int|
                        0 <= e < g.edges@.len() && (#[trigger] g.edges@[e]).from == u
                            && g.edges@[e].to == w;
                    assert(g.out_listed(e));
                    let k = choose|k: int|
                        0 <= k < g.out_adj@[g.edges@[e].from as int].len()
                            && g.out_adj@[g.edges@[e].from as int]@[k] == e;
                    assert(row@[k] == e);
                }
            }
        }
        qpos += 1;
    }
    proof {
        // Closed and containing the initials: visited is exactly the reach set.
        assert forall|v: int| reaches_from(*g, rev, inits, v) implies bits(visited).contains(
            v,
        ) by {
            assert forall|i2: int| inits.contains(i2) && 0 <= i2 < g.node_count implies bits(
                visited,
            ).contains(i2) by {
                let m = initials@.map_values(|t: usize| t as int);
                let k = choose|k: int| 0 <= k < m.len() && #[trigger] m[k] == i2;
                assert(initials@[k] as int == i2);
            }
            lemma_reach_closed(*g, rev, inits, bits(visited), v);
        }
        assert(bits_wf(visited)) by {
            assert forall|v: int| bits(visited).contains(v) implies 0 <= v < bit_capacity(
                visited,
            ) by {
                let m = queue@.map_values(|t: usize| t as int);
                let k = choose|k: int| 0 <= k < m.len() && m[k] == v;
                assert(queue@[k] < g.node_count);
            }
        }
    }
    let count = crate::bitset::bs_count_ones(&visited);
    (visited, count)
}

/// Pushing onto a vector adds one index to its named set.
pub proof fn lemma_ix_set_push(s: Seq<usize>, x: usize)
    ensures
        ix_set(s.push(x)) =~= ix_set(s).insert(x as int),
{
    let m = s.map_values(|t: usize| t as int);
    let mp = s.push(x).map_values(|t: usize| t as int);
    assert(mp =~= m.push(x as int));
    assert(m.push(x as int).to_set() =~= m.to_set().insert(x as int)) by {
        assert forall|y: int| m.push(x as int).to_set().contains(y) implies m.to_set().insert(
            x as int,
        ).contains(y) by {
            let k = choose|k: int| 0 <= k < m.push(x as int).len() && m.push(x as int)[k] == y;
            if k < m.len() {
                assert(m[k] == y);
            }
        }
        assert forall|y: int| m.to_set().insert(x as int).contains(y) implies m.push(
            x as int,
        ).to_set().contains(y) by {
            if m.to_set().contains(y) {
                let k = choose|k: int| 0 <= k < m.len() && m[k] == y;
                assert(m.push(x as int)[k] == y);
            } else {
                assert(m.push(x as int)[m.len() as int] == y);
            }
        }
    }
}

/// A duplicate-free vector of indices below `n` has at most `n` entries.
pub proof fn lemma_distinct_bounded_len(s: Seq<usize>, n: int)
    requires
        s.no_duplicates(),
        0 <= n,
        forall|k: int| 0 <= k < s.len() ==> #[trigger] s[k] < n,
    ensures
        s.len() <= n,
        ix_set(s).len() == s.len(),
{
    let m = s.map_values(|t: usize| t as int);
    assert(m.no_duplicates()) by {
        assert forall|i: int, j: int| 0 <= i < m.len() && 0 <= j < m.len() && i != j implies m[i]
            != m[j] by {
            assert(s[i] != s[j]);
        }
    }
    m.unique_seq_to_set();
    assert(m.to_set().subset_of(vstd::set_lib::set_int_range(0, n))) by {
        assert forall|v: int| m.to_set().contains(v) implies vstd::set_lib::set_int_range(
            0,
            n,
        ).contains(v) by {
            let k = choose|k: int| 0 <= k < m.len() && m[k] == v;
            assert(s[k] < n);
        }
    }
    vstd::set_lib::lemma_int_range(0, n);
    lemma_len_subset(m.to_set(), vstd::set_lib::set_int_range(0, n));
}

/// Pushing an index not already named keeps a vector duplicate-free.
pub proof fn lemma_push_no_dup(s: Seq<usize>, x: usize)
    requires
        s.no_duplicates(),
        !ix_set(s).contains(x as int),
    ensures
        s.push(x).no_duplicates(),
{
    let t = s.push(x);
    assert forall|i: int, j: int| 0 <= i < t.len() && 0 <= j < t.len() && i != j implies t[i]
        != t[j] by {
        if i < s.len() && j < s.len() {
            assert(s[i] != s[j]);
        } else {
            let k = if i < s.len() {
                i
            } else {
                j
            };
            if s[k] == x {
                assert(s.map_values(|u: usize| u as int)[k] == x as int);
                assert(ix_set(s).contains(x as int));
            }
        }
    }
}

} // verus!
