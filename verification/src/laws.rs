//! Laws of the feature graph and the resolved sets.
//!
//! Each proof function states a property that holds of every value its
//! premises admit; the function bodies prove them from the contracts of the
//! building and querying code alone.

use vstd::prelude::*;
use crate::bitset::bits;
use crate::facade::{default_node, id_known, id_node, FeatureGraph};
use crate::feature_build::{
    built_ok, cdep_pair_upto, cdep_witness, fdep_pair, fdep_witness, ftb_pair, ftype_of, node_of,
    token_target,
};
use crate::feature_graph::{base_ix_of, node_ix_of, FeatureGraphImpl};
use crate::package::{PackageLink, PackageMetadata};
use crate::reach::reaches;
use crate::resolve_core::{
    emitted_for, flat_offset, group_blocked, incl_pred, lemma_filter_no_dup, lemma_filter_subset,
    lemma_flat_index, lemma_flat_offset_monotone, lemma_flat_origin, links_seq, topo_items,
    triple_of, ResolveCore,
};
use crate::scc::{in_same_scc, lemma_order_props, lemma_reaches_refl, Sccs};

verus! {

/// Every feature node of a package carries the type its index dictates:
/// named features first, then optional dependencies, with the base marked
/// as the base package. Together with the layout this says the non-base
/// node set of a package is exactly its named features and optional
/// dependencies.
pub proof fn law_feature_types(
    fg: FeatureGraphImpl,
    packages: Seq<PackageMetadata>,
    links: Seq<PackageLink>,
    p: int,
    i: int,
)
    requires
        built_ok(fg, packages, links),
        0 <= p < packages.len(),
        0 <= i < packages[p].n_features(),
    ensures
        fg.nodes@[node_ix_of(packages, p, Option::Some(i))] == node_of(p, Option::Some(i)),
        fg.metas@[node_ix_of(packages, p, Option::Some(i))].feature_type == ftype_of(
            packages,
            p,
            i,
        ),
        fg.nodes@[base_ix_of(packages, p)] == node_of(p, Option::None),
        fg.metas@[base_ix_of(packages, p)].feature_type
            == crate::feature_graph::FeatureType::BasePackage,
{
}

/// Every non-base node has an edge to its package's base labelled so, and
/// no other feature-to-base edge leaves it.
pub proof fn law_feature_to_base(
    fg: FeatureGraphImpl,
    packages: Seq<PackageMetadata>,
    links: Seq<PackageLink>,
    p: int,
    i: int,
)
    requires
        built_ok(fg, packages, links),
        0 <= p < packages.len(),
        0 <= i < packages[p].n_features(),
    ensures
        fg.graph.has_edge(node_ix_of(packages, p, Option::Some(i)), base_ix_of(packages, p)),
        fg.graph.payload_of(
            node_ix_of(packages, p, Option::Some(i)),
            base_ix_of(packages, p),
        ) is FeatureToBase,
        forall|b: int|
            fg.graph.has_edge(node_ix_of(packages, p, Option::Some(i)), b) && (
            #[trigger] fg.graph.payload_of(
                node_ix_of(packages, p, Option::Some(i)),
                b,
            )) is FeatureToBase ==> b == base_ix_of(packages, p),
{
    let a = node_ix_of(packages, p, Option::Some(i));
    assert(ftb_pair(packages, packages.len() as int, a, base_ix_of(packages, p))) by {
        assert(a == node_ix_of(packages, p, Option::Some(i)));
    }
    assert(fg.graph.has_edge(a, base_ix_of(packages, p)));
    assert forall|b: int|
        fg.graph.has_edge(a, b) && (#[trigger] fg.graph.payload_of(a, b)) is FeatureToBase implies b
        == base_ix_of(packages, p) by {
        if !ftb_pair(packages, packages.len() as int, a, b) {
            if fdep_pair(packages, links, a, b) {
                assert(fg.graph.payload_of(a, b) is FeatureDependency);
            } else {
                assert(cdep_pair_upto(packages, links, links.len() as int, 0, 0, a, b));
                let (e2, s2, opt2) = choose|e2: int, s2: int, opt2: bool|
                    #[trigger] cdep_witness(
                        packages,
                        links,
                        links.len() as int,
                        0,
                        0,
                        a,
                        b,
                        e2,
                        s2,
                        opt2,
                    );
                assert(crate::feature_build::dep_payload_ok(fg.graph, packages, links, e2, s2, opt2));
            }
        } else {
            let (p2, i2) = choose|p2: int, i2: int|
                0 <= p2 < packages.len() && 0 <= i2 < packages[p2].n_features() && a
                    == #[trigger] node_ix_of(packages, p2, Option::Some(i2)) && b == node_ix_of(
                    packages,
                    p2,
                    Option::None,
                );
            crate::feature_build::lemma_node_ix_inj(
                packages,
                p,
                Option::Some(i),
                p2,
                Option::Some(i2),
            );
        }
    }
}

/// Every node of a package lies in the half-open index range its package's
/// base-index table entry opens.
pub proof fn law_node_in_package_range(
    fg: FeatureGraphImpl,
    packages: Seq<PackageMetadata>,
    links: Seq<PackageLink>,
    p: int,
    f: Option<int>,
)
    requires
        built_ok(fg, packages, links),
        0 <= p < packages.len(),
        match f {
            Option::None => true,
            Option::Some(i) => 0 <= i < packages[p].n_features(),
        },
    ensures
        fg.base_ixs@[p] <= node_ix_of(packages, p, f) < fg.base_ixs@[p + 1],
{
    crate::feature_graph::lemma_node_ix_range(packages, p, f);
}

/// No token of any package resolves to a feature of a different package.
pub open spec fn no_cross_tokens(packages: Seq<PackageMetadata>, links: Seq<PackageLink>) -> bool {
    forall|p: int, n: int, t: int|
        0 <= p < packages.len() && 0 <= n < packages[p].named_feature_count && 0 <= t < packages[p].features@[n].feature_deps@.len()
            ==> ((#[trigger] token_target(
            packages,
            links,
            p,
            packages[p].features@[n].feature_deps@[t]@,
        )) matches Option::Some(tt) ==> tt.0 == p)
}

/// Under no cross-package tokens, every edge between different packages is
/// a dependency edge. A token such as one naming a feature of a direct
/// dependency adds a cross-package feature-dependency edge instead, which
/// is why the premise is needed.
pub proof fn law_cross_edges_are_dependencies(
    fg: FeatureGraphImpl,
    packages: Seq<PackageMetadata>,
    links: Seq<PackageLink>,
    p1: int,
    f1: Option<int>,
    p2: int,
    f2: Option<int>,
)
    requires
        built_ok(fg, packages, links),
        crate::package::input_wf(packages, links),
        no_cross_tokens(packages, links),
        0 <= p1 < packages.len(),
        0 <= p2 < packages.len(),
        p1 != p2,
        match f1 {
            Option::None => true,
            Option::Some(i) => 0 <= i < packages[p1].n_features(),
        },
        match f2 {
            Option::None => true,
            Option::Some(i) => 0 <= i < packages[p2].n_features(),
        },
        fg.graph.has_edge(node_ix_of(packages, p1, f1), node_ix_of(packages, p2, f2)),
    ensures
        fg.graph.payload_of(
            node_ix_of(packages, p1, f1),
            node_ix_of(packages, p2, f2),
        ) is Dependency,
{
    let a = node_ix_of(packages, p1, f1);
    let b = node_ix_of(packages, p2, f2);
    if ftb_pair(packages, packages.len() as int, a, b) {
        let (q, i) = choose|q: int, i: int|
            0 <= q < packages.len() && 0 <= i < packages[q].n_features() && a
                == #[trigger] node_ix_of(packages, q, Option::Some(i)) && b == node_ix_of(
                packages,
                q,
                Option::None,
            );
        crate::feature_build::lemma_node_ix_inj(packages, p1, f1, q, Option::Some(i));
        crate::feature_build::lemma_node_ix_inj(packages, p2, f2, q, Option::None);
        assert(false);
    } else if fdep_pair(packages, links, a, b) {
        let (q, n2, t2) = choose|q: int, n2: int, t2: int|
            #[trigger] fdep_witness(packages, links, packages.len() as int, 0, 0, a, b, q, n2, t2);
        let token = packages[q].features@[n2].feature_deps@[t2]@;
        let tt = token_target(packages, links, q, token) -> Some_0;
        assert(packages[q].wf());
        crate::feature_build::lemma_node_ix_inj(packages, p1, f1, q, Option::Some(n2));
        assert(tt.0 == q);
        crate::feature_build::lemma_dep_lookup_bound(
            links,
            q,
            crate::feature_build::token_dep(token),
            packages.len() as int,
        );
        assert(0 <= tt.1 < packages[tt.0].n_features());
        crate::feature_build::lemma_node_ix_inj(packages, p2, f2, tt.0, Option::Some(tt.1));
        assert(false);
    } else {
        let (e2, s2, opt2) = choose|e2: int, s2: int, opt2: bool|
            #[trigger] cdep_witness(packages, links, links.len() as int, 0, 0, a, b, e2, s2, opt2);
        assert(crate::feature_build::dep_payload_ok(fg.graph, packages, links, e2, s2, opt2));
    }
}

/// The graph holds exactly as many nodes as the closing entry of the
/// base-index table records.
pub proof fn law_node_count(
    fg: FeatureGraphImpl,
    packages: Seq<PackageMetadata>,
    links: Seq<PackageLink>,
)
    requires
        built_ok(fg, packages, links),
    ensures
        fg.graph.node_count == fg.base_ixs@[packages.len() as int],
        fg.nodes@.len() == fg.base_ixs@[packages.len() as int],
{
}

/// Every known feature transitively depends on itself.
pub proof fn law_depends_on_self(fg: FeatureGraph, pid: Seq<char>, feat: Option<Seq<char>>)
    requires
        fg.wf(),
        id_known(*fg.package_graph, pid, feat),
    ensures
        reaches(
            fg.inner.graph,
            id_node(*fg.package_graph, pid, feat),
            id_node(*fg.package_graph, pid, feat),
        ),
{
    let pg = *fg.package_graph;
    let p = pg.package_ix_of(pid);
    let f: Option<int> = match feat {
        Option::None => Option::None,
        Option::Some(name) => Option::Some(pg.packages@[p].feature_idx(name)),
    };
    crate::feature_graph::lemma_node_ix_range(pg.packages@, p, f);
    crate::feature_graph::lemma_base_ix_monotone(pg.packages@, p + 1, pg.packages@.len() as int);
    crate::feature_graph::lemma_base_ix_monotone(pg.packages@, 0, p);
    lemma_reaches_refl(fg.inner.graph, id_node(pg, pid, feat));
}

/// No token of any package resolves to the very feature that declares it.
pub open spec fn no_self_tokens(packages: Seq<PackageMetadata>, links: Seq<PackageLink>) -> bool {
    forall|p: int, n: int, t: int|
        0 <= p < packages.len() && 0 <= n < packages[p].named_feature_count && 0 <= t < packages[p].features@[n].feature_deps@.len()
            ==> (#[trigger] token_target(
            packages,
            links,
            p,
            packages[p].features@[n].feature_deps@[t]@,
        )) != Option::Some((p, n))
}

/// No feature directly depends on itself: the graph has no self-loops,
/// unless a feature's token list names that very feature, which the
/// premise excludes.
pub proof fn law_no_self_edge(fg: FeatureGraph, pid: Seq<char>, feat: Option<Seq<char>>)
    requires
        fg.wf(),
        id_known(*fg.package_graph, pid, feat),
        no_self_tokens(fg.package_graph.packages@, fg.package_graph.links@),
        crate::package::input_wf(fg.package_graph.packages@, fg.package_graph.links@),
    ensures
        !fg.inner.graph.has_edge(
            id_node(*fg.package_graph, pid, feat),
            id_node(*fg.package_graph, pid, feat),
        ),
{
    let pg = *fg.package_graph;
    let packages = pg.packages@;
    let links = pg.links@;
    let p = pg.package_ix_of(pid);
    let f: Option<int> = match feat {
        Option::None => Option::None,
        Option::Some(name) => Option::Some(packages[p].feature_idx(name)),
    };
    let a = id_node(pg, pid, feat);
    assert(a == node_ix_of(packages, p, f));
    if fg.inner.graph.has_edge(a, a) {
        if ftb_pair(packages, packages.len() as int, a, a) {
            let (q, i) = choose|q: int, i: int|
                0 <= q < packages.len() && 0 <= i < packages[q].n_features() && a
                    == #[trigger] node_ix_of(packages, q, Option::Some(i)) && a == node_ix_of(
                    packages,
                    q,
                    Option::None,
                );
            crate::feature_build::lemma_node_ix_inj(
                packages,
                q,
                Option::Some(i),
                q,
                Option::None,
            );
            assert(false);
        } else if fdep_pair(packages, links, a, a) {
            let (q, n2, t2) = choose|q: int, n2: int, t2: int|
                #[trigger] fdep_witness(
                    packages,
                    links,
                    packages.len() as int,
                    0,
                    0,
                    a,
                    a,
                    q,
                    n2,
                    t2,
                );
            let token = packages[q].features@[n2].feature_deps@[t2]@;
            let tt = token_target(packages, links, q, token) -> Some_0;
            assert(packages[q].wf());
            crate::feature_graph::lemma_node_ix_range(packages, q, Option::Some(n2));
            crate::feature_build::lemma_dep_lookup_bound(
                links,
                q,
                crate::feature_build::token_dep(token),
                packages.len() as int,
            );
            assert(0 <= tt.1 < packages[tt.0].n_features());
            crate::feature_build::lemma_node_ix_inj(
                packages,
                q,
                Option::Some(n2),
                tt.0,
                Option::Some(tt.1),
            );
            assert(tt == (q, n2));
            assert(false);
        } else {
            let (e2, s2, opt2) = choose|e2: int, s2: int, opt2: bool|
                #[trigger] cdep_witness(
                    packages,
                    links,
                    links.len() as int,
                    0,
                    0,
                    a,
                    a,
                    e2,
                    s2,
                    opt2,
                );
            assert(opt2 ==> links[e2].has_optional()) by {
                if opt2 {
                    crate::feature_build::lemma_nonempty_has_optional(
                        links[e2],
                        packages[links[e2].to as int],
                        crate::feature_build::key_of_slot(s2),
                    );
                }
            }
            crate::feature_build::lemma_cdep_src_valid(packages, links, e2, opt2);
            crate::feature_graph::lemma_node_ix_range(
                packages,
                links[e2].to as int,
                crate::feature_build::key_of_slot(s2),
            );
            let fsrc: Option<int> = if opt2 {
                Option::Some(packages[links[e2].from as int].feature_idx(links[e2].dep_name@))
            } else {
                Option::None
            };
            crate::feature_build::lemma_node_ix_inj(
                packages,
                links[e2].from as int,
                fsrc,
                links[e2].to as int,
                crate::feature_build::key_of_slot(s2),
            );
            assert(links[e2].from == links[e2].to);
            assert(false);
        }
    }
}

/// For a package with no declared default feature, the base is its default
/// feature: the default node reaches the base trivially.
pub proof fn law_default_of_base(fg: FeatureGraph, pid: Seq<char>)
    requires
        fg.wf(),
        fg.package_graph.has_package(pid),
        !fg.package_graph.packages@[fg.package_graph.package_ix_of(pid)].has_feature("default"@),
    ensures
        reaches(
            fg.inner.graph,
            default_node(*fg.package_graph, fg.package_graph.package_ix_of(pid)),
            id_node(*fg.package_graph, pid, Option::None),
        ),
{
    law_depends_on_self(fg, pid, Option::None);
}

/// Adopting a resolved set's own bitset gives the same set back, with the
/// stored length equal to the population count.
pub proof fn law_from_included_round_trip(c: ResolveCore, r: ResolveCore)
    requires
        c.wf_some(),
        r.set() == bits(c.included),
        r.len == bits(c.included).len(),
    ensures
        r.set() == c.set(),
        r.len == c.len,
{
}

/// Set algebra over one set is idempotent: union and intersection with
/// itself give the set back, and the difference with itself is empty.
pub proof fn law_set_algebra_idempotent(s: Set<int>)
    ensures
        s.union(s) == s,
        s.intersect(s) == s,
        s.difference(s) == Set::<int>::empty(),
{
    assert(s.union(s) =~= s);
    assert(s.intersect(s) =~= s);
    assert(s.difference(s) =~= Set::<int>::empty());
}

/// A root of a resolved set has no included predecessor outside its own
/// component, under the direction's orientation.
pub proof fn law_root_unblocked(
    g: crate::digraph::DiGraph<usize>,
    sccs: Sccs,
    included: Set<int>,
    v: int,
    u: int,
)
    requires
        sccs.wf(g),
        0 <= v < g.node_count,
        0 <= u < g.node_count,
        included.contains(v),
        included.contains(u),
        !group_blocked(g, sccs, included, sccs.group_of@[v] as int, false),
        g.has_edge(u, v),
    ensures
        in_same_scc(g, u, v),
{
    let e = g.edge_index(u, v);
    assert(g.edges@[e].from == u && g.edges@[e].to == v);
    if sccs.group_of@[u] != sccs.group_of@[v] {
        assert(group_blocked(g, sccs, included, sccs.group_of@[v] as int, false));
    }
}

/// Reverse topological iteration is exactly forward iteration read
/// backward, and both enumerate exactly the included nodes, each once.
pub proof fn law_topo_reverse(g: crate::digraph::DiGraph<usize>, sccs: Sccs, core: ResolveCore)
    requires
        sccs.wf(g),
        core.wf(g.node_count as int),
    ensures
        topo_items(sccs, core.set(), true) == topo_items(sccs, core.set(), false).reverse(),
        topo_items(sccs, core.set(), false).no_duplicates(),
        crate::reach::ix_set(topo_items(sccs, core.set(), false)) == core.set(),
        topo_items(sccs, core.set(), false).len() == core.len,
{
    lemma_order_props(g, sccs);
    let pred = incl_pred(core.set());
    lemma_filter_reverse(sccs.order@, pred);
    lemma_filter_no_dup(sccs.order@, pred);
    let items = topo_items(sccs, core.set(), false);
    assert(crate::reach::ix_set(items) =~= core.set()) by {
        assert forall|x: int| crate::reach::ix_set(items).contains(x) implies core.set().contains(
            x,
        ) by {
            let m = items.map_values(|t: usize| t as int);
            let k = choose|k: int| 0 <= k < m.len() && #[trigger] m[k] == x;
            sccs.order@.lemma_filter_pred(pred, k);
        }
        assert forall|x: int| core.set().contains(x) implies crate::reach::ix_set(items).contains(
            x,
        ) by {
            assert(crate::scc::seq_has(sccs.order@, x as usize));
            let k = choose|k: int| 0 <= k < sccs.order@.len() && sccs.order@[k] == x as usize;
            sccs.order@.lemma_filter_contains(pred, k);
            let j = choose|j: int| 0 <= j < items.len() && #[trigger] items[j] == sccs.order@[k];
            assert(items.map_values(|t: usize| t as int)[j] == x);
        }
    }
    crate::reach::lemma_distinct_bounded_len(items, g.node_count as int);
}

/// In the forward node order, a node of an earlier component comes first.
proof fn lemma_order_respects_groups(
    g: crate::digraph::DiGraph<usize>,
    sccs: Sccs,
    i: int,
    j: int,
)
    requires
        sccs.wf(g),
        0 <= i < sccs.order@.len(),
        0 <= j < sccs.order@.len(),
        sccs.group_of@[sccs.order@[i] as int] < sccs.group_of@[sccs.order@[j] as int],
    ensures
        i < j,
{
    lemma_order_props(g, sccs);
    let rows = sccs.groups@.map_values(|grp: Vec<usize>| grp@.map_values(|x: usize| x as int));
    let m = sccs.order@.map_values(|x: usize| x as int);
    assert(m == rows.flatten());
    lemma_flat_origin(rows, i);
    lemma_flat_origin(rows, j);
    let (ri, ki) = choose|r: int, k: int|
        {
            &&& 0 <= r < rows.len()
            &&& 0 <= k < rows[r].len()
            &&& i == flat_offset(rows, r) + k
            &&& rows.flatten()[i] == #[trigger] rows[r][k]
        };
    let (rj, kj) = choose|r: int, k: int|
        {
            &&& 0 <= r < rows.len()
            &&& 0 <= k < rows[r].len()
            &&& j == flat_offset(rows, r) + k
            &&& rows.flatten()[j] == #[trigger] rows[r][k]
        };
    // A row's members all carry that row as their component.
    assert(rows[ri][ki] == sccs.groups@[ri]@[ki] as int);
    assert(sccs.group_of@[sccs.order@[i] as int] == ri);
    assert(rows[rj][kj] == sccs.groups@[rj]@[kj] as int);
    assert(sccs.group_of@[sccs.order@[j] as int] == rj);
    assert(ri < rj);
    lemma_flat_index(rows, ri, ki);
    lemma_flat_offset_monotone(rows, ri + 1, rj);
    lemma_flat_offset_monotone(rows, rj, rj);
    assert(i < flat_offset(rows, ri + 1));
    assert(flat_offset(rows, rj) <= j) by {
        assert(j == flat_offset(rows, rj) + kj);
    }
}

/// Every triple a node contributes to the link iteration has that node as
/// its source.
proof fn lemma_emitted_src(g: crate::digraph::DiGraph<usize>, included: Set<int>, u: int)
    requires
        g.wf(),
        0 <= u < g.node_count,
    ensures
        forall|k: int|
            0 <= k < emitted_for(g, included, false, u).len() ==> (#[trigger] emitted_for(
                g,
                included,
                false,
                u,
            )[k]).0 == u,
{
    let row = g.out_adj@[u as int]@;
    let mapped = row.map_values(triple_of(g));
    assert forall|k: int| 0 <= k < mapped.len() implies (#[trigger] mapped[k]).0 == u by {
        assert(row[k] < g.edges@.len() && g.edges@[row[k] as int].from == u);
    }
    lemma_filter_subset(mapped, crate::resolve_core::triple_pred(included));
    assert forall|k: int|
        0 <= k < emitted_for(g, included, false, u).len() implies (#[trigger] emitted_for(
        g,
        included,
        false,
        u,
    )[k]).0 == u by {
        let elem = emitted_for(g, included, false, u)[k];
        assert(mapped.contains(elem));
        let k2 = choose|k2: int| 0 <= k2 < mapped.len() && mapped[k2] == elem;
        assert(mapped[k2].0 == u);
    }
}

/// In forward link iteration, a node with an included predecessor in an
/// earlier component has some link with it on the `to` end yielded before
/// every link with it on the `from` end.
#[verifier::rlimit(60)]
pub proof fn law_link_to_before_from(
    g: crate::digraph::DiGraph<usize>,
    sccs: Sccs,
    included: Set<int>,
    u: int,
    v: int,
)
    requires
        g.wf(),
        sccs.wf(g),
        included.contains(u),
        included.contains(v),
        g.has_edge(u, v),
        0 <= u < g.node_count,
        0 <= v < g.node_count,
        !in_same_scc(g, u, v),
    ensures
        exists|i: int|
            {
                &&& 0 <= i < links_seq(g, sccs, included, false).len()
                &&& (#[trigger] links_seq(g, sccs, included, false)[i]).1 == v
                &&& forall|j: int|
                    0 <= j < links_seq(g, sccs, included, false).len() && (#[trigger] links_seq(
                        g,
                        sccs,
                        included,
                        false,
                    )[j]).0 == v ==> i < j
            },
{
    lemma_order_props(g, sccs);
    let ord = sccs.order@;
    assert(crate::resolve_core::ordered_nodes(sccs, false) == ord);
    let rows = ord.map_values(crate::resolve_core::emitter(g, included, false));
    assert(links_seq(g, sccs, included, false) == rows.flatten());
    // Positions of the two endpoints in the node order.
    assert(crate::scc::seq_has(ord, u as usize));
    assert(crate::scc::seq_has(ord, v as usize));
    let pos_u = choose|k: int| 0 <= k < ord.len() && ord[k] == u as usize;
    let pos_v = choose|k: int| 0 <= k < ord.len() && ord[k] == v as usize;
    // The edge places u's component strictly before v's.
    let e = g.edge_index(u, v);
    assert(g.edges@[e].from == u && g.edges@[e].to == v);
    assert(sccs.group_of@[u] <= sccs.group_of@[v]);
    assert(sccs.group_of@[u] != sccs.group_of@[v]);
    lemma_order_respects_groups(g, sccs, pos_u, pos_v);
    // The edge's triple occurs in u's row.
    let row = g.out_adj@[u as int]@;
    let mapped = row.map_values(triple_of(g));
    assert(g.out_listed(e));
    let k0 = choose|k: int|
        0 <= k < g.out_adj@[g.edges@[e].from as int].len() && g.out_adj@[g.edges@[e].from as int]@[k]
            == e;
    assert(mapped[k0] == crate::resolve_core::edge_triple(g, e));
    assert(crate::resolve_core::triple_pred(included)(mapped[k0]));
    mapped.lemma_filter_contains(crate::resolve_core::triple_pred(included), k0);
    let er = emitted_for(g, included, false, u);
    assert(er.contains(mapped[k0]));
    let kf = choose|k: int| 0 <= k < er.len() && er[k] == mapped[k0];
    assert(rows[pos_u] == er);
    let i = flat_offset(rows, pos_u) + kf;
    lemma_flat_index(rows, pos_u, kf);
    assert(rows.flatten()[i] == er[kf]);
    assert(rows.flatten()[i].1 == v);
    // Everything with v as source sits in v's later row.
    assert forall|j: int|
        0 <= j < rows.flatten().len() && (#[trigger] rows.flatten()[j]).0 == v implies i < j by {
        lemma_flat_origin(rows, j);
        let (r, k) = choose|r: int, k: int|
            {
                &&& 0 <= r < rows.len()
                &&& 0 <= k < rows[r].len()
                &&& j == flat_offset(rows, r) + k
                &&& rows.flatten()[j] == #[trigger] rows[r][k]
            };
        assert(ord[r] < g.node_count);
        lemma_emitted_src(g, included, ord[r] as int);
        assert(rows[r] == emitted_for(g, included, false, ord[r] as int));
        assert(rows[r][k].0 == ord[r]);
        assert(ord[r] == v as usize);
        assert(r == pos_v) by {
            if r != pos_v {
                assert(ord[r] != ord[pos_v]);
            }
        }
        lemma_flat_offset_monotone(rows, pos_u + 1, pos_v);
        assert(i < flat_offset(rows, pos_u + 1));
        assert(flat_offset(rows, pos_v) <= j);
    }
    assert(0 <= i < links_seq(g, sccs, included, false).len() && links_seq(
        g,
        sccs,
        included,
        false,
    )[i].1 == v);
}

/// Filtering commutes with reversal.
proof fn lemma_filter_reverse<A>(s: Seq<A>, pred: spec_fn(A) -> bool)
    ensures
        s.reverse().filter(pred) == s.filter(pred).reverse(),
    decreases s.len(),
{
    reveal_with_fuel(Seq::filter, 2);
    if s.len() == 0 {
        assert(s.reverse() =~= s);
        assert(s.filter(pred).reverse() =~= s.filter(pred));
    } else {
        let rest = s.drop_last();
        lemma_filter_reverse(rest, pred);
        assert(s.reverse() =~= seq![s.last()] + rest.reverse());
        lemma_filter_prepend(rest.reverse(), s.last(), pred);
        assert(s.filter(pred) == if pred(s.last()) {
            rest.filter(pred).push(s.last())
        } else {
            rest.filter(pred)
        });
        if pred(s.last()) {
            assert(rest.filter(pred).push(s.last()).reverse() =~= seq![s.last()]
                + rest.filter(pred).reverse());
            assert(s.reverse().filter(pred) =~= seq![s.last()] + rest.reverse().filter(pred));
        } else {
            assert(s.reverse().filter(pred) =~= rest.reverse().filter(pred));
        }
    }
}

/// Filtering after prepending one element.
proof fn lemma_filter_prepend<A>(s: Seq<A>, x: A, pred: spec_fn(A) -> bool)
    ensures
        (seq![x] + s).filter(pred) == if pred(x) {
            seq![x] + s.filter(pred)
        } else {
            s.filter(pred)
        },
    decreases s.len(),
{
    reveal_with_fuel(Seq::filter, 2);
    let t = seq![x] + s;
    if s.len() == 0 {
        assert(t.len() == 1 && t.last() == x);
        assert(t.drop_last() =~= Seq::<A>::empty());
        if pred(x) {
            assert(t.filter(pred) =~= seq![x] + s.filter(pred));
        }
    } else {
        assert(t.last() == s.last());
        assert(t.drop_last() =~= seq![x] + s.drop_last());
        lemma_filter_prepend(s.drop_last(), x, pred);
        if pred(s.last()) {
            if pred(x) {
                assert(t.filter(pred) =~= seq![x] + s.filter(pred));
            } else {
                assert(t.filter(pred) =~= s.filter(pred));
            }
        } else {
            if pred(x) {
                assert(t.filter(pred) =~= seq![x] + s.filter(pred));
            } else {
                assert(t.filter(pred) =~= s.filter(pred));
            }
        }
    }
}

} // verus!
