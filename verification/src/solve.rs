//! Whole-set ordering of scanned provider signatures.
//!
//! [`DependencyGraph::solve`] arranges every scanned provider into
//! dependency order: each provider becomes a graph node, and every input
//! type that some provider outputs contributes an edge from its producer.
//! The ordering itself is delegated to petgraph's topological sort; on a
//! cycle, petgraph's strongly connected components name the providers
//! involved.

use vstd::prelude::*;

use crate::errors::WireError;
use crate::signature::ProviderSignature;
use crate::table::{lemma_tbl_find_props, tbl_find, tbl_lookup};

verus! {

/// A directed petgraph graph with unit node and edge weights, held
/// behind an opaque boundary: nodes are addressed by their insertion
/// position.
#[verifier::external_body]
pub struct OrderGraph {
    inner: petgraph::graph::DiGraph<(), ()>,
}

/// The number of nodes the graph holds.
pub uninterp spec fn n_of(g: OrderGraph) -> nat;

/// The number of edges the graph holds, parallel edges counted
/// separately.
pub uninterp spec fn m_of(g: OrderGraph) -> nat;

/// The edge relation of the graph, over node positions in insertion
/// order.
pub uninterp spec fn edge_rel(g: OrderGraph) -> Set<(int, int)>;

/// Relies on `petgraph::graph::Graph::new`: the new graph has no nodes
/// and no edges.
#[verifier::external_body]
fn digraph_new() -> (g: OrderGraph)
    ensures
        n_of(g) == 0,
        m_of(g) == 0,
        edge_rel(g) == Set::<(int, int)>::empty(),
{
    OrderGraph { inner: petgraph::graph::DiGraph::new() }
}

/// Relies on `petgraph::graph::Graph::add_node`: nodes are numbered in
/// insertion order and edges are untouched. The node-count bound keeps
/// the index type's limit out of reach.
#[verifier::external_body]
fn digraph_add_node(g: &mut OrderGraph) -> (r: usize)
    requires
        n_of(*old(g)) < 0xffff_ffff,
    ensures
        n_of(*final(g)) == n_of(*old(g)) + 1,
        m_of(*final(g)) == m_of(*old(g)),
        edge_rel(*final(g)) == edge_rel(*old(g)),
        r == n_of(*old(g)),
{
    g.inner.add_node(()).index()
}

/// Relies on `petgraph::graph::Graph::add_edge`: adds one directed edge
/// between two existing nodes. The edge-count bound keeps the index
/// type's limit out of reach; the node bounds rule out the panic on
/// absent nodes.
#[verifier::external_body]
fn digraph_add_edge(g: &mut OrderGraph, a: usize, b: usize)
    requires
        (a as nat) < n_of(*old(g)),
        (b as nat) < n_of(*old(g)),
        m_of(*old(g)) < 0xffff_ffff,
    ensures
        n_of(*final(g)) == n_of(*old(g)),
        m_of(*final(g)) == m_of(*old(g)) + 1,
        edge_rel(*final(g)) == edge_rel(*old(g)).insert((a as int, b as int)),
{
    g.inner.add_edge(
        petgraph::graph::NodeIndex::new(a),
        petgraph::graph::NodeIndex::new(b),
        (),
    );
}

/// Relies on `petgraph::graph::Graph::contains_edge`. The node bounds
/// keep the indices inside the u32 index type, so the conversion below
/// cannot truncate.
#[verifier::external_body]
fn digraph_contains_edge(g: &OrderGraph, a: usize, b: usize) -> (r: bool)
    requires
        (a as nat) < n_of(*g),
        (b as nat) < n_of(*g),
    ensures
        r == edge_rel(*g).contains((a as int, b as int)),
{
    g.inner.contains_edge(
        petgraph::graph::NodeIndex::new(a),
        petgraph::graph::NodeIndex::new(b),
    )
}

/// A cycle in an edge relation over `n` node positions: a closed walk of
/// at least one step.
pub open spec fn rel_has_cycle(es: Set<(int, int)>, n: nat) -> bool {
    exists|p: Seq<int>|
        {
            &&& p.len() >= 2
            &&& (forall|x: int| 0 <= x < p.len() ==> 0 <= #[trigger] p[x] < n)
            &&& (forall|x: int| 0 <= x < p.len() - 1 ==> es.contains((#[trigger] p[x], p[x + 1])))
            &&& p.first() == p.last()
        }
}

/// `v` reaches `w` along the edge relation (in zero or more steps).
pub open spec fn rel_reaches(es: Set<(int, int)>, u: int, v: int) -> bool {
    exists|p: Seq<int>|
        {
            &&& p.len() >= 1
            &&& (forall|x: int| 0 <= x < p.len() - 1 ==> es.contains((#[trigger] p[x], p[x + 1])))
            &&& p.first() == u
            &&& p.last() == v
        }
}

/// `u` and `v` lie on a common cycle or are equal.
pub open spec fn rel_mutual(es: Set<(int, int)>, u: int, v: int) -> bool {
    rel_reaches(es, u, v) && rel_reaches(es, v, u)
}

/// `v` occurs in `order`.
pub open spec fn in_order(order: Seq<usize>, v: int) -> bool {
    exists|x: int| 0 <= x < order.len() && (#[trigger] order[x] as int) == v
}

/// The position of node value `v` in a distinct order.
pub open spec fn posn(order: Seq<usize>, v: int) -> int {
    choose|x: int| 0 <= x < order.len() && (#[trigger] order[x] as int) == v
}

/// Along a walk whose edges a topological order respects, positions
/// strictly increase.
proof fn lemma_walk_pos_increases(es: Set<(int, int)>, n: nat, order: Seq<usize>, p: Seq<int>)
    requires
        forall|x: int, y: int| 0 <= x < y < order.len() ==> order[x] != order[y],
        forall|v: int| 0 <= v < n ==> #[trigger] in_order(order, v),
        forall|x: int, y: int|
            0 <= x < order.len() && 0 <= y < order.len() && es.contains(
                ((#[trigger] order[x]) as int, (#[trigger] order[y]) as int),
            ) ==> x < y,
        p.len() >= 2,
        forall|x: int| 0 <= x < p.len() ==> 0 <= #[trigger] p[x] < n,
        forall|x: int| 0 <= x < p.len() - 1 ==> es.contains((#[trigger] p[x], p[x + 1])),
    ensures
        0 <= posn(order, p.first()) < order.len(),
        0 <= posn(order, p.last()) < order.len(),
        posn(order, p.first()) < posn(order, p.last()),
    decreases p.len(),
{
    let xf = posn(order, p.first());
    assert(in_order(order, p.first()));
    assert(0 <= xf < order.len() && order[xf] as int == p.first());
    if p.len() == 2 {
        let xl = posn(order, p.last());
        assert(in_order(order, p.last()));
        assert(0 <= xl < order.len() && order[xl] as int == p.last());
        assert(es.contains((p[0], p[1])));
        assert(es.contains((order[xf] as int, order[xl] as int)));
    } else {
        lemma_walk_pos_increases(es, n, order, p.drop_last());
        assert(p.drop_last().first() == p.first());
        assert(p.drop_last().last() == p[p.len() - 2]);
        let xm = posn(order, p[p.len() - 2]);
        assert(in_order(order, p[p.len() - 2]));
        assert(0 <= xm < order.len() && order[xm] as int == p[p.len() - 2]);
        let xl = posn(order, p.last());
        assert(in_order(order, p.last()));
        assert(0 <= xl < order.len() && order[xl] as int == p.last());
        assert(es.contains((p[p.len() - 2], p[p.len() - 1])));
        assert(es.contains((p[p.len() - 2], p[p.len() - 1])));
        assert(es.contains((order[xm] as int, order[xl] as int)));
    }
}

/// A topological order rules out cycles.
proof fn lemma_topo_acyclic(es: Set<(int, int)>, n: nat, order: Seq<usize>)
    requires
        forall|x: int, y: int| 0 <= x < y < order.len() ==> order[x] != order[y],
        forall|v: int| 0 <= v < n ==> #[trigger] in_order(order, v),
        forall|x: int, y: int|
            0 <= x < order.len() && 0 <= y < order.len() && es.contains(
                ((#[trigger] order[x]) as int, (#[trigger] order[y]) as int),
            ) ==> x < y,
    ensures
        !rel_has_cycle(es, n),
{
    if rel_has_cycle(es, n) {
        let p = choose|p: Seq<int>|
            {
                &&& p.len() >= 2
                &&& (forall|x: int| 0 <= x < p.len() ==> 0 <= #[trigger] p[x] < n)
                &&& (forall|x: int|
                    0 <= x < p.len() - 1 ==> es.contains((#[trigger] p[x], p[x + 1])))
                &&& p.first() == p.last()
            };
        lemma_walk_pos_increases(es, n, order, p);
    }
}

/// Relies on `petgraph::algo::toposort`: on an acyclic graph it returns
/// every node exactly once, each node before its successors; on a graph
/// with a cycle (self loops included) it returns an error naming a node.
#[verifier::external_body]
fn digraph_toposort(g: &OrderGraph) -> (r: Result<Vec<usize>, usize>)
    ensures
        match r {
            Ok(order) => {
                &&& order@.len() == n_of(*g)
                &&& (forall|x: int| 0 <= x < order@.len() ==> (#[trigger] order@[x] as nat) < n_of(
                    *g,
                ))
                &&& (forall|x: int, y: int|
                    0 <= x < y < order@.len() ==> order@[x] != order@[y])
                &&& (forall|x: int, y: int|
                    0 <= x < order@.len() && 0 <= y < order@.len() && edge_rel(*g).contains(
                        (order@[x] as int, order@[y] as int),
                    ) ==> x < y)
                &&& (forall|v: int| 0 <= v < n_of(*g) ==> #[trigger] in_order(order@, v))
            },
            Err(c) => rel_has_cycle(edge_rel(*g), n_of(*g)) && (c as nat) < n_of(*g),
        },
{
    match petgraph::algo::toposort(&g.inner, None) {
        Ok(order) => Ok(order.iter().map(|i| i.index()).collect()),
        Err(c) => Err(c.node_id().index()),
    }
}

/// `v` occurs in some group of `groups`.
pub open spec fn in_some_group(groups: Seq<Vec<usize>>, v: usize) -> bool {
    exists|i: int| 0 <= i < groups.len() && #[trigger] groups[i]@.contains(v)
}

/// Relies on `petgraph::algo::tarjan_scc`: the groups partition the
/// nodes into the strongly connected components — every node appears in
/// exactly one group, members of one group are mutually reachable, and
/// mutually reachable nodes share a group.
#[verifier::external_body]
fn digraph_tarjan(g: &OrderGraph) -> (r: Vec<Vec<usize>>)
    ensures
        forall|i: int, x: int|
            0 <= i < r@.len() && 0 <= x < r@[i]@.len() ==> ((#[trigger] r@[i]@[x]) as nat) < n_of(
                *g,
            ),
        forall|i: int, x: int, y: int|
            0 <= i < r@.len() && 0 <= x < y < r@[i]@.len() ==> r@[i]@[x] != r@[i]@[y],
        forall|v: usize| (v as nat) < n_of(*g) ==> #[trigger] in_some_group(r@, v),
        forall|i: int, j: int, v: usize|
            0 <= i < j < r@.len() ==> !(#[trigger] r@[i]@.contains(v) && #[trigger] r@[j]@.contains(
                v,
            )),
        forall|i: int, x: int, y: int|
            0 <= i < r@.len() && 0 <= x < r@[i]@.len() && 0 <= y < r@[i]@.len() ==> rel_mutual(
                edge_rel(*g),
                (#[trigger] r@[i]@[x]) as int,
                (#[trigger] r@[i]@[y]) as int,
            ),
        forall|i: int, u: usize, v: usize|
            #![trigger r@[i]@.contains(u), r@[i]@.contains(v)]
            0 <= i < r@.len() && r@[i]@.contains(u) && (v as nat) < n_of(*g) && rel_mutual(
                edge_rel(*g),
                u as int,
                v as int,
            ) ==> r@[i]@.contains(v),
{
    petgraph::algo::tarjan_scc(&g.inner).into_iter().map(
        |scc| scc.into_iter().map(|i| i.index()).collect(),
    ).collect()
}

/// The last provider producing `ty`, if any (a later declaration of the
/// same output type shadows an earlier one for edge building).
pub open spec fn last_producer(ps: Seq<ProviderSignature>, ty: Seq<char>) -> Option<int>
    decreases ps.len(),
{
    if ps.len() == 0 {
        None
    } else if ps.last()@.output_type == ty {
        Some(ps.len() - 1)
    } else {
        last_producer(ps.drop_last(), ty)
    }
}

/// The dependency edge relation of a provider list: an edge from the
/// (last) producer of each input type to its consumer.
pub open spec fn sig_edges(ps: Seq<ProviderSignature>) -> Set<(int, int)> {
    Set::new(
        |e: (int, int)|
            {
                &&& 0 <= e.1 < ps.len()
                &&& exists|t: int|
                    0 <= t < ps[e.1]@.stripped_inputs.len() && last_producer(
                        ps,
                        #[trigger] ps[e.1]@.stripped_inputs[t],
                    ) == Some(e.0)
            },
    )
}

/// `last_producer` lands on a producing index.
pub proof fn lemma_last_producer_props(ps: Seq<ProviderSignature>, ty: Seq<char>)
    ensures
        match last_producer(ps, ty) {
            Some(i) => 0 <= i < ps.len() && ps[i]@.output_type == ty,
            None => true,
        },
    decreases ps.len(),
{
    if ps.len() > 0 && ps.last()@.output_type != ty {
        lemma_last_producer_props(ps.drop_last(), ty);
    }
}

/// `e` is the canonical path of a provider lying in a strongly
/// connected group of two or more, or carrying a self-loop.
pub open spec fn chain_entry_ok(ps: Seq<ProviderSignature>, e: String) -> bool {
    exists|i2: int|
        0 <= i2 < ps.len() && e@ == (#[trigger] ps[i2])@.full_path && (exists|j2: int|
            0 <= j2 < ps.len() && i2 != j2 && rel_mutual(sig_edges(ps), i2, j2) || sig_edges(
                ps,
            ).contains((i2, i2)))
}

/// `chain` holds an entry reading exactly `pth`.
pub open spec fn chain_names(chain: Seq<String>, pth: Seq<char>) -> bool {
    exists|c: int| 0 <= c < chain.len() && (#[trigger] chain[c])@ == pth
}

/// A named entry survives appending to the chain.
proof fn lemma_chain_names_extends(chain: Seq<String>, chain2: Seq<String>, pth: Seq<char>)
    requires
        chain_names(chain, pth),
        chain2.len() >= chain.len(),
        forall|c: int| 0 <= c < chain.len() ==> chain2[c] == chain[c],
    ensures
        chain_names(chain2, pth),
{
    let c = choose|c: int| 0 <= c < chain.len() && (#[trigger] chain[c])@ == pth;
    assert(chain2[c] == chain[c]);
    assert((chain2[c])@ == pth);
}

/// Every member of group `g2` is named in `chain` by its canonical path.
pub open spec fn group_covered(
    ps: Seq<ProviderSignature>,
    groups: Seq<Vec<usize>>,
    chain: Seq<String>,
    g2: int,
) -> bool {
    forall|x2: int|
        0 <= x2 < groups[g2]@.len() ==> chain_names(
            chain,
            ps[(#[trigger] groups[g2]@[x2]) as int]@.full_path,
        )
}

/// Every multi-member group below `upto`, and every self-looping
/// single-member group below `upto`, is fully named in `chain`.
pub open spec fn groups_covered_upto(
    ps: Seq<ProviderSignature>,
    groups: Seq<Vec<usize>>,
    chain: Seq<String>,
    upto: int,
) -> bool {
    &&& forall|g2: int|
        0 <= g2 < upto && (#[trigger] groups[g2])@.len() > 1 ==> group_covered(
            ps,
            groups,
            chain,
            g2,
        )
    &&& forall|g2: int|
        0 <= g2 < upto && (#[trigger] groups[g2])@.len() == 1 && sig_edges(ps).contains(
            (groups[g2]@[0] as int, groups[g2]@[0] as int),
        ) ==> group_covered(ps, groups, chain, g2)
}

/// One group's coverage survives appending to the chain.
proof fn lemma_group_covered_extends(
    ps: Seq<ProviderSignature>,
    groups: Seq<Vec<usize>>,
    chain: Seq<String>,
    chain2: Seq<String>,
    g2: int,
)
    requires
        0 <= g2 < groups.len(),
        group_covered(ps, groups, chain, g2),
        chain2.len() >= chain.len(),
        forall|c: int| 0 <= c < chain.len() ==> chain2[c] == chain[c],
    ensures
        group_covered(ps, groups, chain2, g2),
{
    assert forall|x2: int| 0 <= x2 < groups[g2]@.len() implies chain_names(
        chain2,
        ps[(#[trigger] groups[g2]@[x2]) as int]@.full_path,
    ) by {
        assert(chain_names(chain, ps[(groups[g2]@[x2]) as int]@.full_path));
        lemma_chain_names_extends(chain, chain2, ps[(groups[g2]@[x2]) as int]@.full_path);
    }
}

/// Coverage survives appending to the chain.
proof fn lemma_coverage_extends(
    ps: Seq<ProviderSignature>,
    groups: Seq<Vec<usize>>,
    chain: Seq<String>,
    chain2: Seq<String>,
    upto: int,
)
    requires
        upto <= groups.len(),
        groups_covered_upto(ps, groups, chain, upto),
        chain2.len() >= chain.len(),
        forall|c: int| 0 <= c < chain.len() ==> chain2[c] == chain[c],
    ensures
        groups_covered_upto(ps, groups, chain2, upto),
{
    assert forall|g2: int|
        0 <= g2 < upto && (#[trigger] groups[g2])@.len() > 1 implies group_covered(
        ps,
        groups,
        chain2,
        g2,
    ) by {
        assert(group_covered(ps, groups, chain, g2));
        lemma_group_covered_extends(ps, groups, chain, chain2, g2);
    }
    assert forall|g2: int|
        0 <= g2 < upto && (#[trigger] groups[g2])@.len() == 1 && sig_edges(ps).contains(
        (groups[g2]@[0] as int, groups[g2]@[0] as int),
    ) implies group_covered(ps, groups, chain2, g2) by {
        assert(group_covered(ps, groups, chain, g2));
        lemma_group_covered_extends(ps, groups, chain, chain2, g2);
    }
}

/// Every provider on a cycle is named in `chain` by its canonical path:
/// each member of a mutually reachable pair, and each self-looping
/// provider.
pub open spec fn chain_complete(ps: Seq<ProviderSignature>, chain: Seq<String>) -> bool {
    &&& forall|i: int, j: int|
        0 <= i < ps.len() && 0 <= j < ps.len() && i != j && #[trigger] rel_mutual(
            sig_edges(ps),
            i,
            j,
        ) ==> chain_names(chain, ps[i]@.full_path)
    &&& forall|i: int|
        0 <= i < ps.len() && #[trigger] sig_edges(ps).contains((i, i)) ==> chain_names(
            chain,
            ps[i]@.full_path,
        )
}

/// `order` witnesses that `sorted` is `ps` arranged in dependency
/// order: a permutation in which, for every dependency edge, the
/// producer stands before the consumer.
pub open spec fn solved_order(
    ps: Seq<ProviderSignature>,
    sorted: Seq<ProviderSignature>,
    order: Seq<usize>,
) -> bool {
    &&& order.len() == ps.len()
    &&& (forall|x: int| 0 <= x < order.len() ==> (#[trigger] order[x] as int) < ps.len())
    &&& (forall|x: int, y: int| 0 <= x < y < order.len() ==> order[x] != order[y])
    &&& (forall|x: int, y: int|
        0 <= x < order.len() && 0 <= y < order.len() && sig_edges(ps).contains(
            (order[x] as int, order[y] as int),
        ) ==> x < y)
    &&& sorted.len() == order.len()
    &&& (forall|x: int|
        0 <= x < order.len() ==> (#[trigger] sorted[x])@ == ps[order[x] as int]@)
}

/// Build the order graph of a provider list: one node per provider in
/// order, one edge from the last producer of each input type to its
/// consumer.
#[verifier::loop_isolation(false)]
#[verifier::rlimit(100)]
fn build_order_graph(providers: &Vec<ProviderSignature>) -> (g: OrderGraph)
    requires
        providers@.len() < 0xffff,
        forall|i: int|
            0 <= i < providers@.len() ==> (#[trigger] providers@[i])@.stripped_inputs.len()
                < 0xffff,
    ensures
        n_of(g) == providers@.len(),
        edge_rel(g) == sig_edges(providers@),
{
        let n = providers.len();
        let mut g = digraph_new();
        let mut type_to_node: Vec<(String, usize)> = Vec::new();
        let mut i: usize = 0;
        while i < n
            invariant
                n == providers@.len(),
                i <= n,
                n_of(g) == i,
                m_of(g) == 0,
                edge_rel(g) == Set::<(int, int)>::empty(),
                forall|k: Seq<char>|
                    match #[trigger] tbl_find(type_to_node@, k) {
                        Some(p) => last_producer(providers@.take(i as int), k) == Some(
                            type_to_node@[p].1 as int,
                        ),
                        None => last_producer(providers@.take(i as int), k) is None,
                    },
            decreases n - i,
        {
            let idx = digraph_add_node(&mut g);
            let ghost t0 = type_to_node@;
            let key = providers[i].output_type.clone();
            match tbl_lookup(&type_to_node, &key) {
                Some(p) => {
                    proof {
                        lemma_tbl_find_props(type_to_node@, key@);
                    }
                    type_to_node.remove(p);
                    type_to_node.insert(p, (key, i));
                },
                None => {
                    type_to_node.push((key, i));
                },
            }
            proof {
                let tnew = type_to_node@;
                let pre = providers@.take(i as int);
                let cur = providers@.take(i + 1);
                assert(cur.drop_last() =~= pre);
                assert(cur.last() == providers@[i as int]);
                assert forall|k: Seq<char>|
                    match #[trigger] tbl_find(tnew, k) {
                        Some(p) => last_producer(cur, k) == Some(tnew[p].1 as int),
                        None => last_producer(cur, k) is None,
                    } by {
                    lemma_tbl_find_props(t0, k);
                    lemma_tbl_find_props(tnew, k);
                    if k == providers@[i as int]@.output_type {
                        assert(last_producer(cur, k) == Some(i as int));
                        match tbl_find(t0, k) {
                            Some(p) => {
                                assert(forall|q: int|
                                    0 <= q < tnew.len() ==> tnew[q].0@ == t0[q].0@);
                                assert(tbl_find(tnew, k) == Some(p));
                                assert(tnew[p].1 == i);
                            },
                            None => {
                                assert(tnew =~= t0.push((tnew.last().0, i as usize)));
                                assert(tnew.last().0@ == k);
                                match tbl_find(tnew, k) {
                                    Some(p) => {
                                        assert(tnew[p].1 == i);
                                    },
                                    None => {
                                        assert(tnew[tnew.len() - 1].0@ == k);
                                    },
                                }
                            },
                        }
                    } else {
                        assert(last_producer(cur, k) == last_producer(pre, k));
                        match tbl_find(t0, k) {
                            Some(p) => {
                                assert(forall|q: int|
                                    0 <= q < t0.len() ==> tnew[q] == t0[q] || q
                                        == tbl_find(t0, providers@[i as int]@.output_type)->Some_0);
                                assert(tnew[p].0@ == k);
                                assert(tbl_find(tnew, k) == Some(p));
                                assert(tnew[p].1 == t0[p].1);
                            },
                            None => {
                                assert(forall|q: int|
                                    0 <= q < tnew.len() ==> tnew[q].0@ != k);
                                assert(tbl_find(tnew, k) is None);
                            },
                        }
                    }
                }
            }
            i = i + 1;
        }
        proof {
            assert(providers@.take(n as int) =~= providers@);
        }
        let ghost type_tbl = type_to_node@;
        let mut j: usize = 0;
        let mut edge_count: usize = 0;
        while j < n
            invariant
                n == providers@.len(),
                n < 0xffff,
                j <= n,
                n_of(g) == n,
                type_to_node@ == type_tbl,
                forall|k: Seq<char>|
                    match #[trigger] tbl_find(type_tbl, k) {
                        Some(p) => last_producer(providers@, k) == Some(type_tbl[p].1 as int),
                        None => last_producer(providers@, k) is None,
                    },
                edge_count <= j * 0xffff,
                m_of(g) == edge_count,
                forall|e: (int, int)|
                    edge_rel(g).contains(e) ==> #[trigger] sig_edges(providers@).contains(e),
                forall|a: int, b: int, t: int|
                    #![trigger last_producer(providers@, providers@[b]@.stripped_inputs[t]), edge_rel(g).contains((a, b))]
                    0 <= b < j && 0 <= t < providers@[b]@.stripped_inputs.len() && last_producer(
                        providers@,
                        providers@[b]@.stripped_inputs[t],
                    ) == Some(a) ==> edge_rel(g).contains((a, b)),
            decreases n - j,
        {
            let p = &providers[j];
            let mut t: usize = 0;
            while t < p.stripped_inputs.len()
                invariant
                    n == providers@.len(),
                    n < 0xffff,
                    j < n,
                    p == &providers@[j as int],
                    t <= providers@[j as int]@.stripped_inputs.len(),
                    n_of(g) == n,
                    type_to_node@ == type_tbl,
                    forall|k: Seq<char>|
                        match #[trigger] tbl_find(type_tbl, k) {
                            Some(q) => last_producer(providers@, k) == Some(type_tbl[q].1 as int),
                            None => last_producer(providers@, k) is None,
                        },
                    edge_count <= j * 0xffff + t,
                    m_of(g) == edge_count,
                    forall|e: (int, int)|
                        edge_rel(g).contains(e) ==> #[trigger] sig_edges(providers@).contains(e),
                    forall|a: int, b: int, u: int|
                        #![trigger last_producer(providers@, providers@[b]@.stripped_inputs[u]), edge_rel(g).contains((a, b))]
                        0 <= b < j && 0 <= u < providers@[b]@.stripped_inputs.len()
                            && last_producer(
                            providers@,
                            providers@[b]@.stripped_inputs[u],
                        ) == Some(a) ==> edge_rel(g).contains((a, b)),
                    forall|a: int, u: int|
                        #![trigger last_producer(providers@, providers@[j as int]@.stripped_inputs[u]), edge_rel(g).contains((a, j as int))]
                        0 <= u < t && last_producer(
                            providers@,
                            providers@[j as int]@.stripped_inputs[u],
                        ) == Some(a) ==> edge_rel(g).contains((a, j as int)),
                decreases p.stripped_inputs.len() - t,
            {
                let input = &p.stripped_inputs[t];
                proof {
                    assert(input@ == providers@[j as int]@.stripped_inputs[t as int]);
                }
                match tbl_lookup(&type_to_node, input) {
                    Some(q) => {
                        proof {
                            lemma_tbl_find_props(type_tbl, input@);
                            lemma_last_producer_props(providers@, input@);
                            assert(last_producer(providers@, input@) is Some);
                        }
                        let dep = type_to_node[q].1;
                        proof {
                            assert(last_producer(providers@, input@) == Some(dep as int));
                            assert((dep as int) < providers@.len());
                            assert(last_producer(
                                providers@,
                                providers@[j as int]@.stripped_inputs[t as int],
                            ) == Some(dep as int));
                            assert(sig_edges(providers@).contains((dep as int, j as int)));
                            assert(t < 0xffff);
                            assert(edge_count < 0xffff * 0xffff) by (nonlinear_arith)
                                requires
                                    edge_count <= j * 0xffff + t,
                                    t < 0xffff,
                                    0 <= j < 0xffff,
                            ;
                        }
                        digraph_add_edge(&mut g, dep, j);
                        edge_count = edge_count + 1;
                    },
                    None => {
                        proof {
                            assert(last_producer(providers@, input@) is None);
                        }
                    },
                }
                t = t + 1;
            }
            proof {
                assert forall|a: int, b: int, u: int|
                    #![trigger last_producer(providers@, providers@[b]@.stripped_inputs[u]), edge_rel(g).contains((a, b))]
                    0 <= b < j + 1 && 0 <= u < providers@[b]@.stripped_inputs.len()
                        && last_producer(
                        providers@,
                        providers@[b]@.stripped_inputs[u],
                    ) == Some(a) implies edge_rel(g).contains((a, b)) by {}
                assert(t < 0xffff);
                assert(edge_count <= (j + 1) * 0xffff) by (nonlinear_arith)
                    requires
                        edge_count <= j * 0xffff + t,
                        t < 0xffff,
                        j >= 0,
                ;
            }
            j = j + 1;
        }
        proof {
            assert(edge_rel(g) =~= sig_edges(providers@)) by {
                assert forall|e: (int, int)| sig_edges(providers@).contains(e) implies edge_rel(
                    g,
                ).contains(e) by {}
            }
        }
        g
}

/// Name, by canonical path, every provider inside a strongly connected
/// group of two or more and every self-looping provider — all of them,
/// and nothing else.
#[verifier::loop_isolation(false)]
#[verifier::rlimit(100)]
#[verifier::spinoff_prover]
fn cycle_chain(providers: &Vec<ProviderSignature>, g: &OrderGraph) -> (chain: Vec<String>)
    requires
        n_of(*g) == providers@.len(),
        edge_rel(*g) == sig_edges(providers@),
    ensures
        forall|x: int|
            0 <= x < chain@.len() ==> chain_entry_ok(providers@, #[trigger] chain@[x]),
        chain_complete(providers@, chain@),
{
    let n_check = providers.len();
    let groups = digraph_tarjan(g);
    proof {
        assert forall|u: usize, v: usize|
            #![trigger rel_mutual(edge_rel(*g), u as int, v as int)]
            (u as nat) < n_of(*g) && (v as nat) < n_of(*g) && u != v && rel_mutual(
                edge_rel(*g),
                u as int,
                v as int,
            ) implies exists|i2: int|
            0 <= i2 < groups@.len() && #[trigger] groups@[i2]@.contains(u)
                && groups@[i2]@.contains(v) && groups@[i2]@.len() > 1 by {
            assert(in_some_group(groups@, u));
            let i2 = choose|i2: int|
                0 <= i2 < groups@.len() && #[trigger] groups@[i2]@.contains(u);
            assert(groups@[i2]@.contains(v));
            let xu = choose|x: int| 0 <= x < groups@[i2]@.len() && groups@[i2]@[x] == u;
            let xv = choose|x: int| 0 <= x < groups@[i2]@.len() && groups@[i2]@[x] == v;
            assert(xu != xv);
            assert(groups@[i2]@.len() > 1);
        }
    }
    let mut chain: Vec<String> = Vec::new();
    let mut gi: usize = 0;
    while gi < groups.len()
        invariant
            n_of(*g) == providers@.len(),
            edge_rel(*g) == sig_edges(providers@),
            gi <= groups@.len(),
            forall|i2: int, x2: int|
                0 <= i2 < groups@.len() && 0 <= x2 < groups@[i2]@.len() ==> ((
                #[trigger] groups@[i2]@[x2]) as nat) < n_of(*g),
            forall|i2: int, x2: int, y2: int|
                0 <= i2 < groups@.len() && 0 <= x2 < y2 < groups@[i2]@.len()
                    ==> groups@[i2]@[x2] != groups@[i2]@[y2],
            forall|i2: int, x2: int, y2: int|
                0 <= i2 < groups@.len() && 0 <= x2 < groups@[i2]@.len() && 0 <= y2
                    < groups@[i2]@.len() ==> rel_mutual(
                    edge_rel(*g),
                    (#[trigger] groups@[i2]@[x2]) as int,
                    (#[trigger] groups@[i2]@[y2]) as int,
                ),
            forall|u: usize, v: usize|
                #![trigger rel_mutual(edge_rel(*g), u as int, v as int)]
                (u as nat) < n_of(*g) && (v as nat) < n_of(*g) && u != v && rel_mutual(
                    edge_rel(*g),
                    u as int,
                    v as int,
                ) ==> exists|i2: int|
                    0 <= i2 < groups@.len() && #[trigger] groups@[i2]@.contains(u)
                        && groups@[i2]@.contains(v) && groups@[i2]@.len() > 1,
            forall|x2: int|
                0 <= x2 < chain@.len() ==> chain_entry_ok(providers@, #[trigger] chain@[x2]),
            groups_covered_upto(providers@, groups@, chain@, gi as int),
        decreases groups.len() - gi,
    {
        let group = &groups[gi];
        if group.len() > 1 {
            let mut xi: usize = 0;
            while xi < group.len()
                invariant
                    n_of(*g) == providers@.len(),
                    edge_rel(*g) == sig_edges(providers@),
                    gi < groups@.len(),
                    group == &groups@[gi as int],
                    groups@[gi as int]@.len() > 1,
                    xi <= group@.len(),
                    forall|x2: int, y2: int|
                        0 <= x2 < groups@[gi as int]@.len() && 0 <= y2 < groups@[gi as int]@.len() ==> rel_mutual(
                            edge_rel(*g),
                            (#[trigger] groups@[gi as int]@[x2]) as int,
                            (#[trigger] groups@[gi as int]@[y2]) as int,
                        ),
                    forall|x2: int, y2: int|
                        0 <= x2 < y2 < groups@[gi as int]@.len() ==> groups@[gi as int]@[x2] != groups@[gi as int]@[y2],
                    forall|x2: int|
                        0 <= x2 < groups@[gi as int]@.len() ==> ((#[trigger] groups@[gi as int]@[x2]) as nat) < n_of(*g),
                    forall|x2: int|
                        0 <= x2 < chain@.len() ==> chain_entry_ok(
                            providers@,
                            #[trigger] chain@[x2],
                        ),
                    groups_covered_upto(providers@, groups@, chain@, gi as int),
                    forall|x2: int|
                        #![trigger group@[x2]]
                        0 <= x2 < xi ==> chain_names(
                            chain@,
                            providers@[group@[x2] as int]@.full_path,
                        ),
                decreases group.len() - xi,
            {
                let v = group[xi];
                proof {
                    let other: int = if xi == 0 {
                        1
                    } else {
                        0
                    };
                    assert(rel_mutual(
                        sig_edges(providers@),
                        group@[xi as int] as int,
                        group@[other] as int,
                    ));
                    assert(group@[xi as int] != group@[other]);
                }
                let nm = providers[v].full_path.clone();
                let ghost chain0 = chain@;
                chain.push(nm);
                proof {
                    let i2 = group@[xi as int] as int;
                    let j2 = group@[(if xi == 0 { 1int } else { 0int })] as int;
                    assert(chain@[chain@.len() - 1]@ == providers@[i2]@.full_path);
                    assert(0 <= j2 < providers@.len() && i2 != j2 && rel_mutual(
                        sig_edges(providers@),
                        i2,
                        j2,
                    ));
                    assert(chain_entry_ok(providers@, chain@[chain@.len() - 1]));
                    assert(forall|x2: int|
                        0 <= x2 < chain0.len() ==> chain@[x2] == chain0[x2]);
                    assert(chain_names(chain@, providers@[i2]@.full_path)) by {
                        assert((chain@[chain@.len() - 1])@ == providers@[i2]@.full_path);
                    }
                    lemma_coverage_extends(providers@, groups@, chain0, chain@, gi as int);
                    assert forall|x2: int|
                        #![trigger group@[x2]]
                        0 <= x2 < xi + 1 implies chain_names(
                        chain@,
                        providers@[group@[x2] as int]@.full_path,
                    ) by {
                        if x2 < xi {
                            assert(chain_names(chain0, providers@[group@[x2] as int]@.full_path));
                            lemma_chain_names_extends(
                                chain0,
                                chain@,
                                providers@[group@[x2] as int]@.full_path,
                            );
                        }
                    }
                }
                xi = xi + 1;
            }
            proof {
                assert(group_covered(providers@, groups@, chain@, gi as int)) by {
                    assert forall|x2: int|
                        0 <= x2 < groups@[gi as int]@.len() implies chain_names(
                        chain@,
                        providers@[(groups@[gi as int]@[x2]) as int]@.full_path,
                    ) by {
                        assert(chain_names(chain@, providers@[group@[x2] as int]@.full_path));
                    }
                }
                assert(groups_covered_upto(providers@, groups@, chain@, gi + 1)) by {
                    assert forall|g2: int|
                        0 <= g2 < gi + 1 && (#[trigger] groups@[g2])@.len() > 1
                            implies group_covered(providers@, groups@, chain@, g2) by {}
                    assert forall|g2: int|
                        0 <= g2 < gi + 1 && (#[trigger] groups@[g2])@.len() == 1 && sig_edges(
                            providers@,
                        ).contains((groups@[g2]@[0] as int, groups@[g2]@[0] as int))
                            implies group_covered(providers@, groups@, chain@, g2) by {}
                }
            }
        } else if group.len() == 1 {
            let v = group[0];
            if digraph_contains_edge(g, v, v) {
                let nm = providers[v].full_path.clone();
                let ghost chain0 = chain@;
                chain.push(nm);
                proof {
                    assert(chain@[chain@.len() - 1]@ == providers@[v as int]@.full_path);
                    assert(sig_edges(providers@).contains((v as int, v as int)));
                    assert(chain_entry_ok(providers@, chain@[chain@.len() - 1]));
                    assert(forall|x2: int|
                        0 <= x2 < chain0.len() ==> chain@[x2] == chain0[x2]);
                    lemma_coverage_extends(providers@, groups@, chain0, chain@, gi as int);
                    assert(chain_names(chain@, providers@[v as int]@.full_path)) by {
                        assert((chain@[chain@.len() - 1])@ == providers@[v as int]@.full_path);
                    }
                    assert(group_covered(providers@, groups@, chain@, gi as int)) by {
                        assert forall|x2: int|
                            0 <= x2 < groups@[gi as int]@.len() implies chain_names(
                            chain@,
                            providers@[(groups@[gi as int]@[x2]) as int]@.full_path,
                        ) by {
                            assert(x2 == 0);
                            assert(groups@[gi as int]@[x2] == v);
                        }
                    }
                }
            }
            proof {
                assert(groups_covered_upto(providers@, groups@, chain@, gi + 1)) by {
                    if edge_rel(*g).contains((group@[0] as int, group@[0] as int)) {
                        assert(group_covered(providers@, groups@, chain@, gi as int));
                    }
                }
            }
        } else {
            proof {
                assert(groups_covered_upto(providers@, groups@, chain@, gi + 1));
            }
        }
        gi = gi + 1;
    }
    proof {
        assert(edge_rel(*g) == sig_edges(providers@));
        assert forall|u: usize, v: usize|
            #![trigger rel_mutual(sig_edges(providers@), u as int, v as int)]
            (u as nat) < providers@.len() && (v as nat) < providers@.len() && u != v
                && rel_mutual(sig_edges(providers@), u as int, v as int) implies exists|i2: int|
            0 <= i2 < groups@.len() && #[trigger] groups@[i2]@.contains(u)
                && groups@[i2]@.contains(v) && groups@[i2]@.len() > 1 by {
            assert(rel_mutual(edge_rel(*g), u as int, v as int));
        }
        assert(groups_covered_upto(providers@, groups@, chain@, groups@.len() as int));
        lemma_chain_completeness(providers@, groups@, chain@);
    }
    chain
}

/// Chain completeness follows from the component grouping: every member
/// of a mutually reachable pair lies in a reported multi-member group,
/// and every self-looping provider lies in a reported group or passed
/// the self-loop check.
#[verifier::spinoff_prover]
proof fn lemma_chain_completeness(
    ps: Seq<ProviderSignature>,
    groups: Seq<Vec<usize>>,
    chain: Seq<String>,
)
    requires
        ps.len() <= usize::MAX,
        forall|u: usize, v: usize|
            #![trigger rel_mutual(sig_edges(ps), u as int, v as int)]
            (u as nat) < ps.len() && (v as nat) < ps.len() && u != v && rel_mutual(
                sig_edges(ps),
                u as int,
                v as int,
            ) ==> exists|i2: int|
                0 <= i2 < groups.len() && #[trigger] groups[i2]@.contains(u)
                    && groups[i2]@.contains(v) && groups[i2]@.len() > 1,
        forall|u: usize| (u as nat) < ps.len() ==> #[trigger] in_some_group(groups, u),
        forall|i2: int, x2: int|
            0 <= i2 < groups.len() && 0 <= x2 < groups[i2]@.len() ==> ((
            #[trigger] groups[i2]@[x2]) as nat) < ps.len(),
        groups_covered_upto(ps, groups, chain, groups.len() as int),
    ensures
        chain_complete(ps, chain),
{
    assert forall|i: int, j: int|
        0 <= i < ps.len() && 0 <= j < ps.len() && i != j && #[trigger] rel_mutual(
        sig_edges(ps),
        i,
        j,
    ) implies chain_names(chain, ps[i]@.full_path) by {
        let u = i as usize;
        let v = j as usize;
        assert(u as int == i && v as int == j);
        assert(rel_mutual(sig_edges(ps), u as int, v as int));
        let g2 = choose|g2: int|
            0 <= g2 < groups.len() && #[trigger] groups[g2]@.contains(u)
                && groups[g2]@.contains(v) && groups[g2]@.len() > 1;
        assert(group_covered(ps, groups, chain, g2));
        let x2 = choose|x2: int| 0 <= x2 < groups[g2]@.len() && groups[g2]@[x2] == u;
        assert(groups[g2]@[x2] == u);
        assert(chain_names(chain, ps[(groups[g2]@[x2]) as int]@.full_path));
    }
    assert forall|i: int|
        0 <= i < ps.len() && #[trigger] sig_edges(ps).contains((i, i)) implies chain_names(
        chain,
        ps[i]@.full_path,
    ) by {
        let u = i as usize;
        assert(u as int == i);
        assert(in_some_group(groups, u));
        let g2 = choose|g2: int| 0 <= g2 < groups.len() && #[trigger] groups[g2]@.contains(u);
        let x2 = choose|x2: int| 0 <= x2 < groups[g2]@.len() && groups[g2]@[x2] == u;
        if groups[g2]@.len() > 1 {
            assert(group_covered(ps, groups, chain, g2));
            assert(groups[g2]@[x2] == u);
            assert(chain_names(chain, ps[(groups[g2]@[x2]) as int]@.full_path));
        } else {
            assert(x2 == 0);
            assert(groups[g2]@[0] == u);
            assert(sig_edges(ps).contains((groups[g2]@[0] as int, groups[g2]@[0] as int)));
            assert(group_covered(ps, groups, chain, g2));
            assert(chain_names(chain, ps[(groups[g2]@[0]) as int]@.full_path));
        }
    }
}

/// `sorted` is `ps` arranged in some dependency order.
pub open spec fn solve_ok(ps: Seq<ProviderSignature>, sorted: Seq<ProviderSignature>) -> bool {
    exists|order: Seq<usize>| #[trigger] solved_order(ps, sorted, order)
}

/// The whole-set ordering pass over scanned provider signatures.
#[derive(Debug)]
pub struct DependencyGraph;

impl DependencyGraph {
    /// Order every provider so that producers precede their consumers.
    ///
    /// On success the result is a permutation of the input in which, for
    /// every dependency edge, the producer stands before the consumer.
    /// When the dependency relation has a cycle, the error carries the
    /// canonical paths of every provider in a strongly connected group
    /// of two or more and of every self-loop — each such provider is
    /// named, and nothing else is.
    #[verifier::loop_isolation(false)]
    #[verifier::rlimit(100)]
    #[verifier::spinoff_prover]
    pub fn solve(providers: Vec<ProviderSignature>) -> (r: Result<
        Vec<ProviderSignature>,
        WireError,
    >)
        requires
            providers@.len() < 0xffff,
            forall|i: int|
                0 <= i < providers@.len() ==> (#[trigger] providers@[i])@.stripped_inputs.len()
                    < 0xffff,
        ensures
            ((r is Err) <==> rel_has_cycle(sig_edges(providers@), providers@.len() as nat)),
            match r {
                Ok(sorted) => solve_ok(providers@, sorted@),
                Err(e) => match e {
                    WireError::Cycle { chain } => (forall|x: int|
                        0 <= x < chain@.len() ==> chain_entry_ok(
                            providers@,
                            #[trigger] chain@[x],
                        )) && chain_complete(providers@, chain@),
                    _ => false,
                },
            },
    {
        let n = providers.len();
        let g = build_order_graph(&providers);
        match digraph_toposort(&g) {
            Ok(order) => {
                let mut sorted: Vec<ProviderSignature> = Vec::new();
                let mut x: usize = 0;
                while x < order.len()
                    invariant
                        n == providers@.len(),
                        order@.len() == n,
                        forall|y: int|
                            0 <= y < order@.len() ==> (#[trigger] order@[y] as int)
                                < providers@.len(),
                        x <= n,
                        sorted@.len() == x,
                        forall|y: int|
                            0 <= y < x ==> (#[trigger] sorted@[y])@
                                == providers@[order@[y] as int]@,
                    decreases n - x,
                {
                    let idx = order[x];
                    sorted.push(providers[idx].clone());
                    x = x + 1;
                }
                proof {
                    lemma_topo_acyclic(sig_edges(providers@), providers@.len() as nat, order@);
                    assert(solved_order(providers@, sorted@, order@));
                    assert(solve_ok(providers@, sorted@));
                }
                return Ok(sorted);
            },
            Err(_) => {
                let chain = cycle_chain(&providers, &g);
                return Err(WireError::Cycle { chain });
            },
        }
    }
}

} // verus!
