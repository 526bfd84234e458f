//! Graph resolution: from a target key to an ordered construction plan.
//!
//! Lookup prefers an exact type-key match and falls back to the fuzzy
//! suffix rule, choosing the first matching key in registration order.
//! The traversal is a depth-first walk keeping the keys on the current
//! path; a key met twice on one path is a cycle, a key that no lookup
//! resolves is reported with every registered key, and a declaration is
//! appended to the plan exactly once, on first full resolution.

use vstd::prelude::*;
use vstd::seq_lib::group_seq_properties;
use vstd::set_lib::{lemma_int_range, lemma_len_subset, set_int_range};

use crate::errors::WireError;
use crate::graph::Graph;
use crate::keys::{is_match, spec_is_match};
use crate::models::{ProviderInfo, ProviderView};
use crate::table::{lemma_tbl_find_props, tbl_find, tbl_keys, tbl_lookup};

verus! {

impl Graph {
    /// Index of the entry registered exactly under `k`, if any.
    pub open spec fn exact_find(self, k: Seq<char>) -> Option<int> {
        tbl_find(self.nodes@, k)
    }

    /// First index at or after `i` whose key matches `d` fuzzily.
    pub open spec fn fuzzy_from(self, d: Seq<char>, i: int) -> Option<int>
        decreases self.n() - i,
        when 0 <= i
    {
        if i >= self.n() {
            None
        } else if spec_is_match(d, self.key_at(i)) || spec_is_match(self.key_at(i), d) {
            Some(i)
        } else {
            self.fuzzy_from(d, i + 1)
        }
    }

    /// Resolution of a dependency key to a table index: the exact entry
    /// when one exists, else the first fuzzily matching entry in
    /// registration order.
    pub open spec fn lookup(self, d: Seq<char>) -> Option<int> {
        match self.exact_find(d) {
            Some(i) => Some(i),
            None => self.fuzzy_from(d, 0),
        }
    }

    /// `fuzzy_from` finds exactly the first fuzzily matching index.
    pub proof fn lemma_fuzzy_props(self, d: Seq<char>, i: int)
        requires
            0 <= i,
        ensures
            match self.fuzzy_from(d, i) {
                Some(p) => i <= p < self.n() && (spec_is_match(d, self.key_at(p))
                    || spec_is_match(self.key_at(p), d)) && forall|j: int|
                    i <= j < p ==> !(spec_is_match(d, #[trigger] self.key_at(j))
                        || spec_is_match(self.key_at(j), d)),
                None => forall|j: int|
                    i <= j < self.n() ==> !(spec_is_match(d, #[trigger] self.key_at(j))
                        || spec_is_match(self.key_at(j), d)),
            },
        decreases self.n() - i,
    {
        if i < self.n() && !(spec_is_match(d, self.key_at(i)) || spec_is_match(
            self.key_at(i),
            d,
        )) {
            self.lemma_fuzzy_props(d, i + 1);
        }
    }

    /// A successful lookup lands inside the table.
    pub proof fn lemma_lookup_bounds(self, d: Seq<char>)
        ensures
            match self.lookup(d) {
                Some(p) => 0 <= p < self.n(),
                None => true,
            },
    {
        lemma_tbl_find_props(self.nodes@, d);
        self.lemma_fuzzy_props(d, 0);
    }

    /// Resolve a dependency key to a table index, as `lookup` defines it.
    #[verifier::loop_isolation(false)]
    pub fn lookup_idx(&self, d: &String) -> (r: Option<usize>)
        ensures
            match r {
                Some(p) => self.lookup(d@) == Some(p as int),
                None => self.lookup(d@) is None,
            },
    {
        match tbl_lookup(&self.nodes, d) {
            Some(i) => Some(i),
            None => {
                let mut i: usize = 0;
                proof {
                    self.lemma_fuzzy_props(d@, 0);
                }
                while i < self.nodes.len()
                    invariant
                        i <= self.n(),
                        tbl_find(self.nodes@, d@) is None,
                        forall|j: int|
                            0 <= j < i ==> !(spec_is_match(d@, #[trigger] self.key_at(j))
                                || spec_is_match(self.key_at(j), d@)),
                    decreases self.nodes@.len() - i,
                {
                    let key = &self.nodes[i].0;
                    if is_match(d.as_str(), key.as_str()) || is_match(key.as_str(), d.as_str()) {
                        proof {
                            self.lemma_fuzzy_props(d@, 0);
                            match self.fuzzy_from(d@, 0) {
                                Some(p) => {
                                    if p < i {
                                        assert(!(spec_is_match(d@, self.key_at(p))
                                            || spec_is_match(self.key_at(p), d@)));
                                    }
                                    if (i as int) < p {
                                        assert(!(spec_is_match(d@, self.key_at(i as int))
                                            || spec_is_match(self.key_at(i as int), d@)));
                                    }
                                },
                                None => {
                                    assert(!(spec_is_match(d@, self.key_at(i as int))
                                        || spec_is_match(self.key_at(i as int), d@)));
                                },
                            }
                        }
                        return Some(i);
                    }
                    i = i + 1;
                }
                proof {
                    self.lemma_fuzzy_props(d@, 0);
                }
                None
            },
        }
    }

    /// Every registered key, in registration order.
    #[verifier::loop_isolation(false)]
    pub fn all_keys(&self) -> (r: Vec<String>)
        ensures
            r.deep_view() == tbl_keys(self.nodes@),
    {
        let mut r: Vec<String> = Vec::new();
        let mut i: usize = 0;
        while i < self.nodes.len()
            invariant
                i <= self.n(),
                r@.len() == i,
                forall|j: int| 0 <= j < i ==> r@[j]@ == self.key_at(j),
            decreases self.nodes@.len() - i,
        {
            r.push(self.nodes[i].0.clone());
            i = i + 1;
        }
        proof {
            assert(r.deep_view().len() == tbl_keys(self.nodes@).len());
            assert forall|j: int| 0 <= j < r@.len() implies r.deep_view()[j] == tbl_keys(
                self.nodes@,
            )[j] by {
                assert(r.deep_view()[j] == r@[j]@);
                assert(tbl_keys(self.nodes@)[j] == self.key_at(j));
            }
            assert(r.deep_view() =~= tbl_keys(self.nodes@));
        }
        r
    }
}

/// One dependency step: some dependency key of node `a` resolves to
/// node `b`.
pub open spec fn step(g: Graph, a: int, b: int) -> bool {
    &&& 0 <= a < g.n()
    &&& exists|t: int|
        0 <= t < g.deps_at(a).len() && g.lookup(#[trigger] g.deps_at(a)[t]) == Some(b)
}

/// A nonempty sequence of nodes linked by dependency steps.
pub open spec fn is_chain(g: Graph, p: Seq<int>) -> bool {
    &&& forall|x: int| 0 <= x < p.len() ==> 0 <= #[trigger] p[x] < g.n()
    &&& forall|x: int| 0 <= x < p.len() - 1 ==> step(g, #[trigger] p[x], p[x + 1])
}

/// Node `a` is reachable from node `root` along dependency steps.
pub open spec fn reaches(g: Graph, root: int, a: int) -> bool {
    exists|p: Seq<int>|
        is_chain(g, p) && p.len() >= 1 && p.first() == root && #[trigger] p.last() == a
}

/// Some dependency cycle is reachable from `root`.
pub open spec fn has_reachable_cycle(g: Graph, root: int) -> bool {
    exists|p: Seq<int>|
        is_chain(g, p) && p.len() >= 2 && p.first() == p.last() && reaches(
            g,
            root,
            #[trigger] p.first(),
        )
}

/// Every dependency key of every node reachable from `root` resolves.
pub open spec fn closed_from(g: Graph, root: int) -> bool {
    forall|a: int, t: int|
        reaches(g, root, a) && 0 <= t < g.deps_at(a).len() ==> g.lookup(
            #[trigger] g.deps_at(a)[t],
        ) is Some
}

impl Graph {
    /// Resolve the node for one key and, recursively first, everything
    /// it depends on; append its declaration to the plan on its first
    /// full resolution.
    #[verifier::loop_isolation(false)]
    fn visit(
        &self,
        a: usize,
        Ghost(root): Ghost<int>,
        stack: &mut Vec<usize>,
        visited: &mut Vec<usize>,
        plan: &mut Vec<ProviderInfo>,
    ) -> (r: Result<(), WireError>)
        requires
            self.wf(),
            0 <= root < self.n(),
            (a as int) < self.n(),
            reaches(*self, root, a as int),
            dfs_inv(*self, root, old(stack)@, old(visited)@, old(plan)@),
            old(stack)@.len() > 0 ==> step(*self, old(stack)@.last() as int, a as int),
            old(stack)@.len() == 0 ==> a as int == root,
        ensures
            match r {
                Ok(()) => {
                    &&& final(stack)@ == old(stack)@
                    &&& dfs_inv(*self, root, final(stack)@, final(visited)@, final(plan)@)
                    &&& final(visited)@.len() >= old(visited)@.len()
                    &&& (forall|x: int|
                        0 <= x < old(visited)@.len() ==> final(visited)@[x] == old(visited)@[x])
                    &&& final(plan)@.len() >= old(plan)@.len()
                    &&& (forall|x: int|
                        0 <= x < old(plan)@.len() ==> final(plan)@[x] == old(plan)@[x])
                    &&& final(visited)@.contains(a)
                },
                Err(e) => match e {
                    WireError::Cycle { chain } => chain@.len() >= 1 && cycle_named(
                        *self,
                        root,
                        chain.deep_view(),
                    ),
                    WireError::NotFound { requested, available } => available.deep_view()
                        == tbl_keys(self.nodes@) && missing_from(*self, root, requested@),
                    _ => false,
                },
            },
            old(visited)@.contains(a) ==> r is Ok && final(visited)@ == old(visited)@
                && final(plan)@ == old(plan)@ && final(stack)@ == old(stack)@,
            (!old(visited)@.contains(a) && old(stack)@.contains(a)) ==> (r matches Err(
                WireError::Cycle { .. })) && final(visited)@ == old(visited)@ && final(plan)@
                == old(plan)@ && final(stack)@ == old(stack)@,
        decreases self.nodes@.len() - stack@.len(),
    {
        let ghost g = *self;
        if vec_has_usize(visited, a) {
            return Ok(());
        }
        match pos_of_usize(stack, a) {
            Some(x) => {
                let mut chain: Vec<String> = Vec::new();
                let mut y = x;
                while y < stack.len()
                    invariant
                        x <= y <= stack@.len(),
                        chain@.len() == y - x,
                        forall|j: int|
                            0 <= j < chain@.len() ==> chain@[j]@ == path_of(
                                g,
                                stack@[x + j],
                            ),
                    decreases stack@.len() - y,
                {
                    let v = stack[y];
                    chain.push(self.nodes[v].1.provider.path.clone());
                    y = y + 1;
                }
                proof {
                    let c = stack@.subrange(x as int, stack@.len() as int);
                    assert(c.first() == stack@[x as int]);
                    assert(c.last() == stack@.last());
                    assert(stack@.len() > 0);
                    assert(step(g, stack@.last() as int, a as int));
                    assert(c.first() == a);
                    assert forall|j: int| 0 <= j < c.len() - 1 implies step(
                        g,
                        #[trigger] c[j] as int,
                        c[j + 1] as int,
                    ) by {
                        assert(step(g, stack@[x + j] as int, stack@[x + j + 1] as int));
                    }
                    assert(step(g, c.last() as int, c.first() as int));
                    assert(chain.deep_view() =~= order_paths(g, c));
                    assert(cycle_named(g, root, chain.deep_view()));
                }
                return Err(WireError::Cycle { chain });
            },
            None => {},
        }
        proof {
            lemma_distinct_bounded(stack@.push(a), self.nodes@.len());
        }
        stack.push(a);
        let ghost stack1 = stack@;
        proof {
            assert(stack1.last() == a);
            assert forall|x: int| 0 <= x < stack1.len() - 1 implies step(
                g,
                #[trigger] stack1[x] as int,
                stack1[x + 1] as int,
            ) by {
                if x < stack1.len() - 2 {
                    assert(step(g, old(stack)@[x] as int, old(stack)@[x + 1] as int));
                } else {
                    assert(stack1[x] == old(stack)@.last());
                }
            }
            assert(dfs_inv(g, root, stack1, visited@, plan@));
        }
        let mut t: usize = 0;
        while t < self.edges[a].1.len()
            invariant
                self.wf(),
                0 <= root < self.n(),
                (a as int) < self.n(),
                g == *self,
                t <= g.deps_at(a as int).len(),
                stack@ == stack1,
                stack1 == old(stack)@.push(a),
                dfs_inv(g, root, stack@, visited@, plan@),
                visited@.len() >= old(visited)@.len(),
                forall|x: int|
                    0 <= x < old(visited)@.len() ==> visited@[x] == old(visited)@[x],
                plan@.len() >= old(plan)@.len(),
                forall|x: int| 0 <= x < old(plan)@.len() ==> plan@[x] == old(plan)@[x],
                forall|u: int|
                    0 <= u < t ==> exists|y: int|
                        0 <= y < visited@.len() && g.lookup(
                            #[trigger] g.deps_at(a as int)[u],
                        ) == Some(visited@[y] as int),
            decreases g.deps_at(a as int).len() - t,
        {
            let d = &self.edges[a].1[t];
            proof {
                assert(d@ == g.deps_at(a as int)[t as int]);
            }
            match self.lookup_idx(d) {
                None => {
                    let available = self.all_keys();
                    proof {
                        assert(g.deps_at(a as int)[t as int] == d@);
                        assert(missing_from(g, root, d@));
                    }
                    return Err(WireError::NotFound { requested: d.clone(), available });
                },
                Some(b) => {
                    proof {
                        g.lemma_lookup_bounds(d@);
                        assert(step(g, a as int, b as int));
                        lemma_reach_step(g, root, a as int, b as int);
                        assert(stack@.last() == a);
                    }
                    let ghost visited_before = visited@;
                    let res = self.visit(b, Ghost(root), stack, visited, plan);
                    match res {
                        Ok(()) => {
                            proof {
                                let y = choose|y: int|
                                    0 <= y < visited@.len() && visited@[y] == b;
                                assert(g.lookup(g.deps_at(a as int)[t as int]) == Some(
                                    visited@[y] as int,
                                ));
                            }
                        },
                        Err(e) => {
                            return Err(e);
                        },
                    }
                },
            }
            t = t + 1;
        }
        let popped = stack.pop();
        proof {
            assert(stack@ =~= old(stack)@);
        }
        let ghost visited2 = visited@;
        let ghost plan2 = plan@;
        let node_path = &self.nodes[a].1.provider.path;
        let seen = plan_has_path(plan, node_path);
        if !seen {
            let cloned = self.nodes[a].1.provider.clone();
            plan.push(cloned);
        }
        visited.push(a);
        proof {
            lemma_project_props(g, visited2, Set::empty());
            lemma_project_snoc(g, visited2, Set::empty(), a);
            assert(path_of(g, a) == node_path@);
            assert(plan_views(plan2) == project(g, visited2, Set::empty()));
            let pr = project(g, visited2, Set::empty());
            assert(!Set::<Seq<char>>::empty().contains(path_of(g, a)));
            assert((exists|j: int|
                0 <= j < plan2.len() && (#[trigger] plan2[j]@).path == node_path@)
                <==> order_paths(g, visited2).contains(path_of(g, a))) by {
                if exists|j: int|
                    0 <= j < plan2.len() && (#[trigger] plan2[j]@).path == node_path@ {
                    let j = choose|j: int|
                        0 <= j < plan2.len() && (#[trigger] plan2[j]@).path == node_path@;
                    assert(plan_views(plan2)[j] == plan2[j]@);
                    assert(pr[j].path == node_path@);
                    assert(order_paths(g, visited2).contains(path_of(g, a)));
                }
                if order_paths(g, visited2).contains(path_of(g, a)) {
                    let j = choose|j: int|
                        0 <= j < pr.len() && (#[trigger] pr[j]).path == path_of(g, a);
                    assert(plan_views(plan2)[j] == plan2[j]@);
                    assert(plan2[j]@.path == node_path@);
                }
            }
            if seen {
                assert(order_paths(g, visited2).contains(path_of(g, a)));
                assert(plan_views(plan@) =~= project(g, visited@, Set::empty()));
            } else {
                assert(!order_paths(g, visited2).contains(path_of(g, a)));
                assert(plan_views(plan@) =~= plan_views(plan2) + seq![g.node_at(a as int)]);
                assert(plan_views(plan@) =~= project(g, visited@, Set::empty()));
            }
            assert(visited@ == visited2.push(a));
            assert forall|x: int, t2: int|
                0 <= x < visited@.len() && 0 <= t2 < g.deps_at(visited@[x] as int).len()
                    implies exists|y: int|
                0 <= y < x && g.lookup(#[trigger] g.deps_at(visited@[x] as int)[t2]) == Some(
                    visited@[y] as int,
                ) by {
                if x < visited2.len() {
                    assert(visited2[x] == visited@[x]);
                    let y = choose|y: int|
                        0 <= y < x && g.lookup(g.deps_at(visited2[x] as int)[t2]) == Some(
                            visited2[y] as int,
                        );
                    assert(g.lookup(g.deps_at(visited@[x] as int)[t2]) == Some(
                        visited@[y] as int,
                    ));
                } else {
                    assert(visited@[x] == a);
                    let y = choose|y: int|
                        0 <= y < visited2.len() && g.lookup(g.deps_at(a as int)[t2]) == Some(
                            visited2[y] as int,
                        );
                    assert(g.lookup(g.deps_at(visited@[x] as int)[t2]) == Some(
                        visited@[y] as int,
                    ));
                }
            }
            assert(visited@.contains(a)) by {
                assert(visited@[visited@.len() - 1] == a);
            }
            assert(dfs_inv(g, root, stack@, visited@, plan@));
        }
        Ok(())
    }
}

/// Reachability is reflexive on nodes.
pub proof fn lemma_reach_refl(g: Graph, root: int)
    requires
        0 <= root < g.n(),
    ensures
        reaches(g, root, root),
{
    let p = seq![root];
    assert(is_chain(g, p));
    assert(p.last() == root);
}

/// The canonical path of the declaration at node `v`.
pub open spec fn path_of(g: Graph, v: usize) -> Seq<char> {
    g.node_at(v as int).path
}

/// The canonical paths along a node order.
pub open spec fn order_paths(g: Graph, order: Seq<usize>) -> Seq<Seq<char>> {
    Seq::new(order.len(), |x: int| path_of(g, order[x]))
}

/// The plan read off a completion order: the declaration of each node,
/// kept only at the first node whose declaration path was not seen
/// before (`banned` carries the paths already emitted).
pub open spec fn project(g: Graph, order: Seq<usize>, banned: Set<Seq<char>>) -> Seq<ProviderView>
    decreases order.len(),
{
    if order.len() == 0 {
        Seq::empty()
    } else if banned.contains(path_of(g, order[0])) {
        project(g, order.drop_first(), banned)
    } else {
        seq![g.node_at(order[0] as int)] + project(
            g,
            order.drop_first(),
            banned.insert(path_of(g, order[0])),
        )
    }
}

/// Appending a node to the order appends its declaration to the plan
/// exactly when its path is new.
pub proof fn lemma_project_snoc(g: Graph, order: Seq<usize>, banned: Set<Seq<char>>, a: usize)
    ensures
        project(g, order.push(a), banned) == (if banned.contains(path_of(g, a)) || order_paths(
            g,
            order,
        ).contains(path_of(g, a)) {
            project(g, order, banned)
        } else {
            project(g, order, banned) + seq![g.node_at(a as int)]
        }),
    decreases order.len(),
{
    reveal_with_fuel(project, 3);
    if order.len() == 0 {
        assert(order.push(a)[0] == a);
        assert(order.push(a).drop_first() =~= Seq::<usize>::empty());
        assert(!order_paths(g, order).contains(path_of(g, a)));
        if !banned.contains(path_of(g, a)) {
            assert(project(g, order.push(a), banned) =~= project(g, order, banned) + seq![
                g.node_at(a as int),
            ]);
        }
    } else {
        assert(order.push(a)[0] == order[0]);
        assert(order.push(a).drop_first() =~= order.drop_first().push(a));
        lemma_project_snoc(g, order.drop_first(), banned, a);
        lemma_project_snoc(g, order.drop_first(), banned.insert(path_of(g, order[0])), a);
        assert(order_paths(g, order).contains(path_of(g, a)) == (path_of(g, order[0]) == path_of(
            g,
            a,
        ) || order_paths(g, order.drop_first()).contains(path_of(g, a)))) by {
            if order_paths(g, order).contains(path_of(g, a)) {
                let x = choose|x: int|
                    0 <= x < order.len() && order_paths(g, order)[x] == path_of(g, a);
                if x > 0 {
                    assert(order_paths(g, order.drop_first())[x - 1] == path_of(g, a));
                }
            }
            if order_paths(g, order.drop_first()).contains(path_of(g, a)) {
                let x = choose|x: int|
                    0 <= x < order.drop_first().len() && order_paths(g, order.drop_first())[x]
                        == path_of(g, a);
                assert(order_paths(g, order)[x + 1] == path_of(g, a));
            }
            if path_of(g, order[0]) == path_of(g, a) {
                assert(order_paths(g, order)[0] == path_of(g, a));
            }
        }
        if banned.contains(path_of(g, order[0])) {
        } else {
            assert(project(g, order.push(a), banned) =~= seq![g.node_at(order[0] as int)]
                + project(g, order.drop_first().push(a), banned.insert(path_of(g, order[0]))));
            if banned.insert(path_of(g, order[0])).contains(path_of(g, a)) || order_paths(
                g,
                order.drop_first(),
            ).contains(path_of(g, a)) {
            } else {
                assert(project(g, order.push(a), banned) =~= project(g, order, banned) + seq![
                    g.node_at(a as int),
                ]);
            }
        }
    }
}

/// Properties of the projected plan: distinct paths, every element taken
/// from the order, and (outside `banned`) a path occurs in the plan
/// exactly when it occurs along the order.
pub proof fn lemma_project_props(g: Graph, order: Seq<usize>, banned: Set<Seq<char>>)
    ensures
        forall|j1: int, j2: int|
            0 <= j1 < j2 < project(g, order, banned).len() ==> project(g, order, banned)[j1].path
                != project(g, order, banned)[j2].path,
        forall|j: int|
            0 <= j < project(g, order, banned).len() ==> exists|x: int|
                0 <= x < order.len() && #[trigger] project(g, order, banned)[j] == g.node_at(
                    order[x] as int,
                ),
        forall|pth: Seq<char>|
            #![trigger order_paths(g, order).contains(pth)]
            !banned.contains(pth) ==> ((exists|j: int|
                0 <= j < project(g, order, banned).len() && (#[trigger] project(g, order, banned)[j]).path
                    == pth) <==> order_paths(g, order).contains(pth)),
        forall|j: int|
            0 <= j < project(g, order, banned).len() ==> !banned.contains(
                (#[trigger] project(g, order, banned)[j]).path,
            ),
    decreases order.len(),
{
    if order.len() == 0 {
        assert forall|pth: Seq<char>| !banned.contains(pth) implies !order_paths(
            g,
            order,
        ).contains(pth) by {
            if order_paths(g, order).contains(pth) {
                let x = choose|x: int|
                    0 <= x < order.len() && order_paths(g, order)[x] == pth;
            }
        }
    } else {
        let p0 = path_of(g, order[0]);
        let rest = order.drop_first();
        if banned.contains(p0) {
            lemma_project_props(g, rest, banned);
            let pr = project(g, order, banned);
            assert(pr == project(g, rest, banned));
            assert forall|pth: Seq<char>| !banned.contains(pth) implies ((exists|j: int|
                0 <= j < pr.len() && (#[trigger] pr[j]).path == pth) <==> order_paths(
                g,
                order,
            ).contains(pth)) by {
                lemma_order_paths_head(g, order, pth);
                assert(pth != p0);
            }
        } else {
            lemma_project_props(g, rest, banned.insert(p0));
            let pr = project(g, order, banned);
            let tail = project(g, rest, banned.insert(p0));
            assert(pr == seq![g.node_at(order[0] as int)] + tail);
            assert(pr[0] == g.node_at(order[0] as int));
            assert(forall|j: int| 1 <= j < pr.len() ==> pr[j] == tail[j - 1]);
            assert forall|j1: int, j2: int| 0 <= j1 < j2 < pr.len() implies pr[j1].path
                != pr[j2].path by {
                if j1 == 0 {
                    assert(!banned.insert(p0).contains(tail[j2 - 1].path));
                }
            }
            assert forall|j: int| 0 <= j < pr.len() implies exists|x: int|
                0 <= x < order.len() && #[trigger] pr[j] == g.node_at(order[x] as int) by {
                if j == 0 {
                    assert(pr[0] == g.node_at(order[0] as int));
                } else {
                    let x = choose|x: int|
                        0 <= x < rest.len() && #[trigger] tail[j - 1] == g.node_at(
                            rest[x] as int,
                        );
                    assert(pr[j] == g.node_at(order[x + 1] as int));
                }
            }
            assert forall|pth: Seq<char>| !banned.contains(pth) implies ((exists|j: int|
                0 <= j < pr.len() && (#[trigger] pr[j]).path == pth) <==> order_paths(
                g,
                order,
            ).contains(pth)) by {
                lemma_order_paths_head(g, order, pth);
                if pth == p0 {
                    assert(pr[0].path == pth);
                    assert(order_paths(g, order)[0] == pth);
                } else {
                    assert(!banned.insert(p0).contains(pth));
                    if exists|j: int| 0 <= j < pr.len() && (#[trigger] pr[j]).path == pth {
                        let j = choose|j: int| 0 <= j < pr.len() && (#[trigger] pr[j]).path == pth;
                        assert(j > 0);
                        assert(tail[j - 1].path == pth);
                    }
                    if order_paths(g, order).contains(pth) {
                        assert(order_paths(g, rest).contains(pth));
                        let j = choose|j: int|
                            0 <= j < tail.len() && (#[trigger] tail[j]).path == pth;
                        assert(pr[j + 1].path == pth);
                    }
                }
            }
            assert forall|j: int| 0 <= j < pr.len() implies !banned.contains(
                (#[trigger] pr[j]).path,
            ) by {
                if j > 0 {
                    assert(!banned.insert(p0).contains(tail[j - 1].path));
                }
            }
        }
    }
}

/// A path occurs along an order exactly when it is the head's path or
/// occurs along the rest.
pub proof fn lemma_order_paths_head(g: Graph, order: Seq<usize>, pth: Seq<char>)
    requires
        order.len() > 0,
    ensures
        order_paths(g, order).contains(pth) == (path_of(g, order[0]) == pth || order_paths(
            g,
            order.drop_first(),
        ).contains(pth)),
{
    if order_paths(g, order).contains(pth) {
        let x = choose|x: int| 0 <= x < order.len() && order_paths(g, order)[x] == pth;
        if x > 0 {
            assert(order_paths(g, order.drop_first())[x - 1] == pth);
        }
    }
    if order_paths(g, order.drop_first()).contains(pth) {
        let x = choose|x: int|
            0 <= x < order.drop_first().len() && order_paths(g, order.drop_first())[x] == pth;
        assert(order_paths(g, order)[x + 1] == pth);
    }
    if path_of(g, order[0]) == pth {
        assert(order_paths(g, order)[0] == pth);
    }
}

/// A sequence of distinct values below `n` has at most `n` elements.
pub proof fn lemma_distinct_bounded(s: Seq<usize>, n: nat)
    requires
        forall|x: int| 0 <= x < s.len() ==> (#[trigger] s[x] as nat) < n,
        forall|x: int, y: int| 0 <= x < y < s.len() ==> s[x] != s[y],
    ensures
        s.len() <= n,
{
    let si = Seq::new(s.len(), |x: int| s[x] as int);
    assert(si.no_duplicates());
    si.unique_seq_to_set();
    assert(si.to_set().subset_of(set_int_range(0, n as int))) by {
        assert forall|e: int| si.to_set().contains(e) implies set_int_range(
            0,
            n as int,
        ).contains(e) by {
            let x = choose|x: int| 0 <= x < si.len() && si[x] == e;
        }
    }
    lemma_int_range(0, n as int);
    lemma_len_subset(si.to_set(), set_int_range(0, n as int));
}

/// The plan as a sequence of declaration views.
pub open spec fn plan_views(plan: Seq<ProviderInfo>) -> Seq<ProviderView> {
    Seq::new(plan.len(), |i: int| plan[i]@)
}

/// `names` lists, in order, the canonical paths around one dependency
/// cycle that is reachable from `root`.
pub open spec fn cycle_named(g: Graph, root: int, names: Seq<Seq<char>>) -> bool {
    exists|c: Seq<usize>|
        {
            &&& c.len() >= 1
            &&& (forall|x: int| 0 <= x < c.len() ==> (#[trigger] c[x] as int) < g.n())
            &&& (forall|x: int|
                0 <= x < c.len() - 1 ==> step(g, #[trigger] c[x] as int, c[x + 1] as int))
            &&& step(g, c.last() as int, c.first() as int)
            &&& reaches(g, root, c.first() as int)
            &&& names == #[trigger] order_paths(g, c)
        }
}

/// Key `d` is required by some node reachable from `root` and resolves
/// to no registered key, exactly or fuzzily.
pub open spec fn missing_from(g: Graph, root: int, d: Seq<char>) -> bool {
    &&& g.lookup(d) is None
    &&& exists|b: int, t: int|
        reaches(g, root, b) && 0 <= t < g.deps_at(b).len() && #[trigger] g.deps_at(b)[t] == d
}

/// A named cycle is a reachable cycle.
pub proof fn lemma_cycle_named_reachable(g: Graph, root: int, names: Seq<Seq<char>>)
    requires
        cycle_named(g, root, names),
    ensures
        has_reachable_cycle(g, root),
{
    let c = choose|c: Seq<usize>|
        {
            &&& c.len() >= 1
            &&& (forall|x: int| 0 <= x < c.len() ==> (#[trigger] c[x] as int) < g.n())
            &&& (forall|x: int|
                0 <= x < c.len() - 1 ==> step(g, #[trigger] c[x] as int, c[x + 1] as int))
            &&& step(g, c.last() as int, c.first() as int)
            &&& reaches(g, root, c.first() as int)
            &&& names == #[trigger] order_paths(g, c)
        };
    let p = Seq::new(c.len() + 1, |x: int| if x < c.len() { c[x] as int } else { c.first() as int });
    assert(p.first() == c.first() as int);
    assert(p.last() == c.first() as int);
    assert forall|x: int| 0 <= x < p.len() - 1 implies step(g, #[trigger] p[x], p[x + 1]) by {
        if x < c.len() - 1 {
            assert(step(g, c[x] as int, c[x + 1] as int));
        } else {
            assert(p[x] == c.last() as int);
        }
    }
    assert(is_chain(g, p));
}

/// The invariant of the depth-first walk: the current path is a chain of
/// distinct reachable nodes starting at the root; completed nodes are
/// distinct, reachable, fully resolved by earlier completed nodes, and
/// disjoint from the current path; and the plan is exactly the
/// first-resolution projection of the completed nodes.
pub open spec fn dfs_inv(
    g: Graph,
    root: int,
    stack: Seq<usize>,
    visited: Seq<usize>,
    plan: Seq<ProviderInfo>,
) -> bool {
    &&& forall|x: int| 0 <= x < stack.len() ==> (#[trigger] stack[x] as int) < g.n()
    &&& forall|x: int, y: int| 0 <= x < y < stack.len() ==> stack[x] != stack[y]
    &&& forall|x: int|
        0 <= x < stack.len() - 1 ==> step(g, #[trigger] stack[x] as int, stack[x + 1] as int)
    &&& (stack.len() > 0 ==> stack[0] as int == root)
    &&& forall|x: int| 0 <= x < stack.len() ==> reaches(g, root, #[trigger] stack[x] as int)
    &&& forall|x: int| 0 <= x < visited.len() ==> (#[trigger] visited[x] as int) < g.n()
    &&& forall|x: int, y: int| 0 <= x < y < visited.len() ==> visited[x] != visited[y]
    &&& forall|x: int| 0 <= x < visited.len() ==> reaches(g, root, #[trigger] visited[x] as int)
    &&& forall|x: int, t: int|
        0 <= x < visited.len() && 0 <= t < g.deps_at(visited[x] as int).len() ==> exists|y: int|
            0 <= y < x && g.lookup(#[trigger] g.deps_at(visited[x] as int)[t]) == Some(
                visited[y] as int,
            )
    &&& forall|x: int, y: int|
        0 <= x < stack.len() && 0 <= y < visited.len() ==> stack[x] != visited[y]
    &&& plan_views(plan) == project(g, visited, Set::empty())
}

/// Does `v` hold the value `a`?
#[verifier::loop_isolation(false)]
fn vec_has_usize(v: &Vec<usize>, a: usize) -> (r: bool)
    ensures
        r == v@.contains(a),
{
    let mut i: usize = 0;
    while i < v.len()
        invariant
            i <= v@.len(),
            forall|j: int| 0 <= j < i ==> v@[j] != a,
        decreases v.len() - i,
    {
        if v[i] == a {
            return true;
        }
        i = i + 1;
    }
    false
}

/// The position of `a` in `v`, if present.
#[verifier::loop_isolation(false)]
fn pos_of_usize(v: &Vec<usize>, a: usize) -> (r: Option<usize>)
    ensures
        match r {
            Some(x) => x < v@.len() && v@[x as int] == a,
            None => !v@.contains(a),
        },
{
    let mut i: usize = 0;
    while i < v.len()
        invariant
            i <= v@.len(),
            forall|j: int| 0 <= j < i ==> v@[j] != a,
        decreases v.len() - i,
    {
        if v[i] == a {
            return Some(i);
        }
        i = i + 1;
    }
    None
}

/// Does the plan already hold a declaration with this canonical path?
#[verifier::loop_isolation(false)]
fn plan_has_path(plan: &Vec<ProviderInfo>, path: &String) -> (r: bool)
    ensures
        r == exists|j: int| 0 <= j < plan@.len() && (#[trigger] plan@[j]@).path == path@,
{
    let mut i: usize = 0;
    while i < plan.len()
        invariant
            i <= plan@.len(),
            forall|j: int| 0 <= j < i ==> (#[trigger] plan@[j]@).path != path@,
        decreases plan.len() - i,
    {
        if plan[i].path == *path {
            assert(plan@[i as int]@.path == path@);
            return true;
        }
        i = i + 1;
    }
    false
}

/// Reachability extends along one dependency step.
pub proof fn lemma_reach_step(g: Graph, root: int, a: int, b: int)
    requires
        reaches(g, root, a),
        step(g, a, b),
        0 <= b < g.n(),
    ensures
        reaches(g, root, b),
{
    let p = choose|p: Seq<int>|
        is_chain(g, p) && p.len() >= 1 && p.first() == root && #[trigger] p.last() == a;
    let q = p.push(b);
    assert(q.last() == b);
    assert(q.first() == root);
    assert forall|x: int| 0 <= x < q.len() - 1 implies step(g, #[trigger] q[x], q[x + 1]) by {
        if x < p.len() - 1 {
            assert(step(g, p[x], p[x + 1]));
        } else {
            assert(q[x] == p.last());
        }
    }
    assert(is_chain(g, q));
}

/// Reachability extends along a whole chain.
pub proof fn lemma_reach_chain(g: Graph, root: int, c: Seq<int>)
    requires
        is_chain(g, c),
        c.len() >= 1,
        reaches(g, root, c.first()),
    ensures
        reaches(g, root, c.last()),
    decreases c.len(),
{
    if c.len() > 1 {
        lemma_reach_chain(g, root, c.drop_last());
        assert(c.drop_last().last() == c[c.len() - 2]);
        assert(step(g, c[c.len() - 2], c.last()));
        lemma_reach_step(g, root, c[c.len() - 2], c.last());
    }
}

/// A completion order: distinct reachable nodes whose dependencies all
/// resolve to strictly earlier entries, covering the root and every node
/// reachable from it.
pub open spec fn order_ok(g: Graph, root: int, order: Seq<usize>) -> bool {
    &&& forall|x: int| 0 <= x < order.len() ==> (#[trigger] order[x] as int) < g.n()
    &&& forall|x: int, y: int| 0 <= x < y < order.len() ==> order[x] != order[y]
    &&& forall|x: int| 0 <= x < order.len() ==> reaches(g, root, #[trigger] order[x] as int)
    &&& forall|x: int, t: int|
        0 <= x < order.len() && 0 <= t < g.deps_at(order[x] as int).len() ==> exists|y: int|
            0 <= y < x && g.lookup(#[trigger] g.deps_at(order[x] as int)[t]) == Some(
                order[y] as int,
            )
    &&& exists|x: int| 0 <= x < order.len() && (#[trigger] order[x] as int) == root
    &&& forall|a: int|
        0 <= a < g.n() && reaches(g, root, a) ==> exists|x: int|
            0 <= x < order.len() && (#[trigger] order[x] as int) == a
}

/// A successful resolution: the plan is the first-resolution projection
/// of some completion order of the nodes reachable from the root.
pub open spec fn resolve_ok(g: Graph, root: int, plan: Seq<ProviderInfo>) -> bool {
    exists|order: Seq<usize>|
        #[trigger] order_ok(g, root, order) && plan_views(plan) == project(g, order, Set::empty())
}

/// In a dependency-closed order, the end of any chain starting at an
/// order element is itself an order element.
proof fn lemma_closed_covers(g: Graph, root: int, order: Seq<usize>, p: Seq<int>)
    requires
        forall|x: int, t: int|
            0 <= x < order.len() && 0 <= t < g.deps_at(order[x] as int).len() ==> exists|y: int|
                0 <= y < x && g.lookup(#[trigger] g.deps_at(order[x] as int)[t]) == Some(
                    order[y] as int,
                ),
        is_chain(g, p),
        p.len() >= 1,
        exists|x: int| 0 <= x < order.len() && (#[trigger] order[x] as int) == p.first(),
    ensures
        exists|x: int| 0 <= x < order.len() && (#[trigger] order[x] as int) == p.last(),
    decreases p.len(),
{
    if p.len() > 1 {
        lemma_closed_covers(g, root, order, p.drop_last());
        let u = p[p.len() - 2];
        assert(p.drop_last().last() == u);
        let x = choose|x: int| 0 <= x < order.len() && (#[trigger] order[x] as int) == u;
        assert(step(g, u, p.last()));
        let t = choose|t: int|
            0 <= t < g.deps_at(u).len() && g.lookup(#[trigger] g.deps_at(u)[t]) == Some(p.last());
        let y = choose|y: int|
            0 <= y < x && g.lookup(#[trigger] g.deps_at(order[x] as int)[t]) == Some(
                order[y] as int,
            );
        assert(order[y] as int == p.last());
    }
}

/// The unique position of node `v` in a distinct order.
pub open spec fn pos_in(order: Seq<usize>, v: int) -> int {
    choose|x: int| 0 <= x < order.len() && (#[trigger] order[x] as int) == v
}

/// In a dependency-closed distinct order, a step goes to a strictly
/// earlier position.
proof fn lemma_step_pos(g: Graph, order: Seq<usize>, u: int, v: int)
    requires
        forall|x: int, y: int| 0 <= x < y < order.len() ==> order[x] != order[y],
        forall|x: int, t: int|
            0 <= x < order.len() && 0 <= t < g.deps_at(order[x] as int).len() ==> exists|y: int|
                0 <= y < x && g.lookup(#[trigger] g.deps_at(order[x] as int)[t]) == Some(
                    order[y] as int,
                ),
        step(g, u, v),
        exists|x: int| 0 <= x < order.len() && (#[trigger] order[x] as int) == u,
    ensures
        exists|x: int| 0 <= x < order.len() && (#[trigger] order[x] as int) == v,
        0 <= pos_in(order, v) < pos_in(order, u) < order.len(),
        order[pos_in(order, u)] as int == u,
        order[pos_in(order, v)] as int == v,
{
    let x = pos_in(order, u);
    assert(0 <= x < order.len() && order[x] as int == u);
    let t = choose|t: int|
        0 <= t < g.deps_at(u).len() && g.lookup(#[trigger] g.deps_at(u)[t]) == Some(v);
    let y = choose|y: int|
        0 <= y < x && g.lookup(#[trigger] g.deps_at(order[x] as int)[t]) == Some(order[y] as int);
    assert(order[y] as int == v);
    let py = pos_in(order, v);
    assert(0 <= py < order.len() && order[py] as int == v);
    if py != y {
        assert(order[py] != order[y] || py == y);
        assert(order[py] == order[y]);
    }
}

/// Along a chain inside a dependency-closed distinct order, positions
/// strictly decrease.
proof fn lemma_chain_pos(g: Graph, order: Seq<usize>, p: Seq<int>)
    requires
        forall|x: int, y: int| 0 <= x < y < order.len() ==> order[x] != order[y],
        forall|x: int, t: int|
            0 <= x < order.len() && 0 <= t < g.deps_at(order[x] as int).len() ==> exists|y: int|
                0 <= y < x && g.lookup(#[trigger] g.deps_at(order[x] as int)[t]) == Some(
                    order[y] as int,
                ),
        is_chain(g, p),
        p.len() >= 2,
        exists|x: int| 0 <= x < order.len() && (#[trigger] order[x] as int) == p.first(),
    ensures
        exists|x: int| 0 <= x < order.len() && (#[trigger] order[x] as int) == p.last(),
        pos_in(order, p.last()) < pos_in(order, p.first()),
    decreases p.len(),
{
    if p.len() == 2 {
        lemma_step_pos(g, order, p.first(), p.last());
    } else {
        lemma_chain_pos(g, order, p.drop_last());
        assert(p.drop_last().last() == p[p.len() - 2]);
        assert(step(g, p[p.len() - 2], p.last()));
        lemma_step_pos(g, order, p[p.len() - 2], p.last());
    }
}

/// A valid completion order rules out any cycle reachable from the root.
pub proof fn lemma_order_acyclic(g: Graph, root: int, order: Seq<usize>)
    requires
        order_ok(g, root, order),
    ensures
        !has_reachable_cycle(g, root),
{
    if has_reachable_cycle(g, root) {
        let p = choose|p: Seq<int>|
            is_chain(g, p) && p.len() >= 2 && p.first() == p.last() && reaches(
                g,
                root,
                #[trigger] p.first(),
            );
        assert(0 <= p.first() < g.n());
        assert(exists|x: int| 0 <= x < order.len() && (#[trigger] order[x] as int) == p.first());
        lemma_chain_pos(g, order, p);
        assert(pos_in(order, p.last()) < pos_in(order, p.first()));
    }
}

/// First plan position holding a declaration with path `pth`, scanning
/// from `i`.
pub open spec fn pv_find_from(plan: Seq<ProviderView>, pth: Seq<char>, i: int) -> Option<int>
    decreases plan.len() - i,
    when 0 <= i
{
    if i >= plan.len() {
        None
    } else if plan[i].path == pth {
        Some(i)
    } else {
        pv_find_from(plan, pth, i + 1)
    }
}

/// First plan position holding a declaration with path `pth`.
pub open spec fn pv_find(plan: Seq<ProviderView>, pth: Seq<char>) -> Option<int> {
    pv_find_from(plan, pth, 0)
}

/// `pv_find_from` finds exactly the first matching position.
pub proof fn lemma_pv_find_props(plan: Seq<ProviderView>, pth: Seq<char>, i: int)
    requires
        0 <= i,
    ensures
        match pv_find_from(plan, pth, i) {
            Some(p) => i <= p < plan.len() && plan[p].path == pth && forall|j: int|
                i <= j < p ==> plan[j].path != pth,
            None => forall|j: int| i <= j < plan.len() ==> plan[j].path != pth,
        },
    decreases plan.len() - i,
{
    if i < plan.len() && plan[i].path != pth {
        lemma_pv_find_props(plan, pth, i + 1);
    }
}

/// First order position whose node carries path `pth`, scanning from `i`.
pub open spec fn fo_from(g: Graph, order: Seq<usize>, pth: Seq<char>, i: int) -> Option<int>
    decreases order.len() - i,
    when 0 <= i
{
    if i >= order.len() {
        None
    } else if path_of(g, order[i]) == pth {
        Some(i)
    } else {
        fo_from(g, order, pth, i + 1)
    }
}

/// First order position whose node carries path `pth`.
pub open spec fn first_occ(g: Graph, order: Seq<usize>, pth: Seq<char>) -> Option<int> {
    fo_from(g, order, pth, 0)
}

/// `fo_from` finds exactly the first carrying position.
pub proof fn lemma_fo_props(g: Graph, order: Seq<usize>, pth: Seq<char>, i: int)
    requires
        0 <= i,
    ensures
        match fo_from(g, order, pth, i) {
            Some(p) => i <= p < order.len() && path_of(g, order[p]) == pth && forall|j: int|
                i <= j < p ==> path_of(g, order[j]) != pth,
            None => forall|j: int| i <= j < order.len() ==> path_of(g, order[j]) != pth,
        },
    decreases order.len() - i,
{
    if i < order.len() && path_of(g, order[i]) != pth {
        lemma_fo_props(g, order, pth, i + 1);
    }
}

/// In the projected plan, paths keep the relative order of their first
/// resolutions: a path first completed earlier stands earlier.
pub proof fn lemma_project_monotone(
    g: Graph,
    order: Seq<usize>,
    banned: Set<Seq<char>>,
    x1: int,
    x2: int,
)
    requires
        0 <= x1 < x2 < order.len(),
        first_occ(g, order, path_of(g, order[x1])) == Some(x1),
        first_occ(g, order, path_of(g, order[x2])) == Some(x2),
        !banned.contains(path_of(g, order[x1])),
        !banned.contains(path_of(g, order[x2])),
        path_of(g, order[x1]) != path_of(g, order[x2]),
    ensures
        ({
            let plan = project(g, order, banned);
            match (pv_find(plan, path_of(g, order[x1])), pv_find(plan, path_of(g, order[x2]))) {
                (Some(j1), Some(j2)) => j1 < j2,
                _ => false,
            }
        }),
    decreases order.len(),
{
    lemma_fo_props(g, order, path_of(g, order[x1]), 0);
    lemma_fo_props(g, order, path_of(g, order[x2]), 0);
    let p0 = path_of(g, order[0]);
    let rest = order.drop_first();
    let p1 = path_of(g, order[x1]);
    let p2 = path_of(g, order[x2]);
    let plan = project(g, order, banned);
    lemma_pv_find_props(plan, p1, 0);
    lemma_pv_find_props(plan, p2, 0);
    if x1 == 0 {
        assert(p0 == p1);
        assert(!banned.contains(p0));
        let tail = project(g, rest, banned.insert(p0));
        assert(plan == seq![g.node_at(order[0] as int)] + tail);
        assert(plan[0].path == p1);
        assert(pv_find(plan, p1) == Some(0int));
        lemma_project_props(g, rest, banned.insert(p0));
        assert(order_paths(g, rest).contains(p2)) by {
            assert(order_paths(g, rest)[x2 - 1] == path_of(g, order[x2]));
        }
        assert(!banned.insert(p0).contains(p2));
        let j2 = choose|j: int| 0 <= j < tail.len() && (#[trigger] tail[j]).path == p2;
        assert(plan[j2 + 1].path == p2);
        assert(pv_find(plan, p2) is Some);
        match pv_find(plan, p2) {
            Some(j) => {
                assert(j != 0);
            },
            None => {},
        }
    } else {
        assert(p0 != p1);
        assert(p0 != p2);
        assert(first_occ(g, rest, p1) == Some(x1 - 1)) by {
            lemma_fo_props(g, rest, p1, 0);
            assert(path_of(g, rest[x1 - 1]) == p1);
            match fo_from(g, rest, p1, 0) {
                Some(q) => {
                    if q < x1 - 1 {
                        assert(path_of(g, order[q + 1]) == p1);
                    }
                    if q > x1 - 1 {
                        assert(path_of(g, rest[x1 - 1]) != p1);
                    }
                },
                None => {
                    assert(path_of(g, rest[x1 - 1]) != p1);
                },
            }
        }
        assert(first_occ(g, rest, p2) == Some(x2 - 1)) by {
            lemma_fo_props(g, rest, p2, 0);
            assert(path_of(g, rest[x2 - 1]) == p2);
            match fo_from(g, rest, p2, 0) {
                Some(q) => {
                    if q < x2 - 1 {
                        assert(path_of(g, order[q + 1]) == p2);
                    }
                    if q > x2 - 1 {
                        assert(path_of(g, rest[x2 - 1]) != p2);
                    }
                },
                None => {
                    assert(path_of(g, rest[x2 - 1]) != p2);
                },
            }
        }
        if banned.contains(p0) {
            lemma_project_monotone(g, rest, banned, x1 - 1, x2 - 1);
            assert(plan == project(g, rest, banned));
        } else {
            lemma_project_monotone(g, rest, banned.insert(p0), x1 - 1, x2 - 1);
            let tail = project(g, rest, banned.insert(p0));
            assert(plan == seq![g.node_at(order[0] as int)] + tail);
            lemma_pv_find_props(tail, p1, 0);
            lemma_pv_find_props(tail, p2, 0);
            let j1t = pv_find(tail, p1)->Some_0;
            let j2t = pv_find(tail, p2)->Some_0;
            assert(plan[j1t + 1].path == p1);
            assert(plan[j2t + 1].path == p2);
            assert(plan[0].path == p0);
            assert(pv_find(plan, p1) == Some(j1t + 1)) by {
                lemma_pv_find_props(plan, p1, 0);
                match pv_find(plan, p1) {
                    Some(j) => {
                        if j < j1t + 1 {
                            if j == 0 {
                                assert(plan[0].path != p1);
                            } else {
                                assert(tail[j - 1].path != p1);
                            }
                        }
                        if j > j1t + 1 {
                            assert(plan[j1t + 1].path != p1);
                        }
                    },
                    None => {
                        assert(plan[j1t + 1].path != p1);
                    },
                }
            }
            assert(pv_find(plan, p2) == Some(j2t + 1)) by {
                lemma_pv_find_props(plan, p2, 0);
                match pv_find(plan, p2) {
                    Some(j) => {
                        if j < j2t + 1 {
                            if j == 0 {
                                assert(plan[0].path != p2);
                            } else {
                                assert(tail[j - 1].path != p2);
                            }
                        }
                        if j > j2t + 1 {
                            assert(plan[j2t + 1].path != p2);
                        }
                    },
                    None => {
                        assert(plan[j2t + 1].path != p2);
                    },
                }
            }
        }
    }
}

/// Every key of one declaration lists the same dependencies: true of
/// every graph that `Graph::new` builds from declarations with distinct
/// canonical paths.
pub open spec fn uniform_deps(g: Graph) -> bool {
    forall|i: int, j: int|
        0 <= i < g.n() && 0 <= j < g.n() && (#[trigger] g.node_at(i)).path == (
        #[trigger] g.node_at(j)).path ==> g.deps_at(i) == g.deps_at(j)
}

/// Dependencies strictly precede their dependents in a resolved plan:
/// for every node reachable from the root and every dependency key it
/// lists, the provider the key resolves to stands strictly before the
/// node's own provider in the plan. Together with the distinctness of
/// plan paths this is the plan's ordering guarantee; for two consumers
/// of one shared declaration it places that declaration once, before
/// both consumers.
pub proof fn lemma_plan_dependencies_precede(g: Graph, root: int, plan: Seq<ProviderInfo>)
    requires
        g.wf(),
        0 <= root < g.n(),
        resolve_ok(g, root, plan),
        uniform_deps(g),
    ensures
        forall|a: int, t: int|
            0 <= a < g.n() && reaches(g, root, a) && 0 <= t < g.deps_at(a).len()
                ==> exists|b: int|
                g.lookup(#[trigger] g.deps_at(a)[t]) == Some(b) && 0 <= b < g.n() && (match (
                pv_find(plan_views(plan), g.node_at(b).path),
                pv_find(plan_views(plan), g.node_at(a).path),
            ) {
                (Some(ib), Some(ia)) => ib < ia,
                _ => false,
            }),
        forall|j1: int, j2: int|
            0 <= j1 < j2 < plan.len() ==> (#[trigger] plan[j1])@.path != (
            #[trigger] plan[j2])@.path,
{
    let order = choose|order: Seq<usize>|
        #[trigger] order_ok(g, root, order) && plan_views(plan) == project(
            g,
            order,
            Set::empty(),
        );
    let pviews = plan_views(plan);
    lemma_project_props(g, order, Set::empty());
    assert forall|j1: int, j2: int| 0 <= j1 < j2 < plan.len() implies (
    #[trigger] plan[j1])@.path != (#[trigger] plan[j2])@.path by {
        assert(pviews[j1] == plan[j1]@);
        assert(pviews[j2] == plan[j2]@);
    }
    assert forall|a: int, t: int|
        0 <= a < g.n() && reaches(g, root, a) && 0 <= t < g.deps_at(a).len()
            implies exists|b: int|
        g.lookup(#[trigger] g.deps_at(a)[t]) == Some(b) && 0 <= b < g.n() && (match (
        pv_find(plan_views(plan), g.node_at(b).path),
        pv_find(plan_views(plan), g.node_at(a).path),
    ) {
        (Some(ib), Some(ia)) => ib < ia,
        _ => false,
    }) by {
        let xa = choose|x: int| 0 <= x < order.len() && (#[trigger] order[x] as int) == a;
        let pa = path_of(g, order[xa]);
        lemma_fo_props(g, order, pa, 0);
        let x0 = first_occ(g, order, pa)->Some_0;
        assert(0 <= x0 <= xa && path_of(g, order[x0]) == pa);
        assert(g.node_at(order[x0] as int).path == g.node_at(a).path);
        assert(g.deps_at(order[x0] as int) == g.deps_at(a));
        let y = choose|y: int|
            0 <= y < x0 && g.lookup(#[trigger] g.deps_at(order[x0] as int)[t]) == Some(
                order[y] as int,
            );
        let b = order[y] as int;
        g.lemma_lookup_bounds(g.deps_at(a)[t]);
        let pb = path_of(g, order[y]);
        lemma_fo_props(g, order, pb, 0);
        let xb0 = first_occ(g, order, pb)->Some_0;
        assert(0 <= xb0 <= y && path_of(g, order[xb0]) == pb);
        assert(pb != pa) by {
            if pb == pa {
                assert(path_of(g, order[y]) == pa);
                assert(y >= x0);
            }
        }
        assert(first_occ(g, order, path_of(g, order[xb0])) == Some(xb0));
        assert(first_occ(g, order, path_of(g, order[x0])) == Some(x0));
        lemma_project_monotone(g, order, Set::empty(), xb0, x0);
        assert(g.lookup(g.deps_at(a)[t]) == Some(b));
    }
}

/// A shared dependency resolves once, ahead of all its consumers: when
/// two nodes reachable from the root both depend on one node, that
/// node's declaration appears in the plan exactly once, strictly before
/// the declarations of both consumers.
pub proof fn lemma_diamond_shared_dependency(
    g: Graph,
    root: int,
    plan: Seq<ProviderInfo>,
    na: int,
    nb: int,
    nc: int,
    ta: int,
    tb: int,
)
    requires
        g.wf(),
        0 <= root < g.n(),
        resolve_ok(g, root, plan),
        uniform_deps(g),
        0 <= na < g.n(),
        0 <= nb < g.n(),
        reaches(g, root, na),
        reaches(g, root, nb),
        0 <= ta < g.deps_at(na).len(),
        g.lookup(g.deps_at(na)[ta]) == Some(nc),
        0 <= tb < g.deps_at(nb).len(),
        g.lookup(g.deps_at(nb)[tb]) == Some(nc),
    ensures
        exists|ic: int, ia: int, ib: int|
            {
                &&& #[trigger] pv_find(plan_views(plan), g.node_at(nc).path) == Some(ic)
                &&& pv_find(plan_views(plan), g.node_at(na).path) == Some(ia)
                &&& pv_find(plan_views(plan), g.node_at(nb).path) == Some(ib)
                &&& ic < ia
                &&& ic < ib
            },
        forall|j1: int, j2: int|
            0 <= j1 < j2 < plan.len() && (#[trigger] plan[j1])@.path == g.node_at(nc).path ==> (
            #[trigger] plan[j2])@.path != g.node_at(nc).path,
{
    lemma_plan_dependencies_precede(g, root, plan);
    let pviews = plan_views(plan);
    let ba = choose|b: int|
        g.lookup(#[trigger] g.deps_at(na)[ta]) == Some(b) && 0 <= b < g.n() && (match (
        pv_find(pviews, g.node_at(b).path),
        pv_find(pviews, g.node_at(na).path),
    ) {
        (Some(ib2), Some(ia2)) => ib2 < ia2,
        _ => false,
    });
    assert(ba == nc);
    let bb = choose|b: int|
        g.lookup(#[trigger] g.deps_at(nb)[tb]) == Some(b) && 0 <= b < g.n() && (match (
        pv_find(pviews, g.node_at(b).path),
        pv_find(pviews, g.node_at(nb).path),
    ) {
        (Some(ib2), Some(ia2)) => ib2 < ia2,
        _ => false,
    });
    assert(bb == nc);
    let ic = pv_find(pviews, g.node_at(nc).path)->Some_0;
    let ia = pv_find(pviews, g.node_at(na).path)->Some_0;
    let ib = pv_find(pviews, g.node_at(nb).path)->Some_0;
    assert(pv_find(pviews, g.node_at(nc).path) == Some(ic) && pv_find(
        pviews,
        g.node_at(na).path,
    ) == Some(ia) && pv_find(pviews, g.node_at(nb).path) == Some(ib) && ic < ia && ic < ib);
    assert forall|j1: int, j2: int|
        0 <= j1 < j2 < plan.len() && (#[trigger] plan[j1])@.path == g.node_at(nc).path implies (
    #[trigger] plan[j2])@.path != g.node_at(nc).path by {}
}

impl Graph {
    /// Resolve the minimal ordered construction plan for a target key.
    ///
    /// The target is looked up exactly, else fuzzily. On success the plan
    /// holds the declaration of every node reachable from the target
    /// exactly once, each after everything it depends on. A key required
    /// along the walk that resolves to no registered key is reported with
    /// the full key list; a key met twice on the current path is reported
    /// as a cycle with the ordered chain of canonical paths around it.
    /// When every reachable dependency resolves and no reachable cycle
    /// exists, resolution succeeds.
    pub fn resolve(&self, target_ty: &str) -> (r: Result<Vec<ProviderInfo>, WireError>)
        requires
            self.wf(),
        ensures
            match self.lookup(target_ty@) {
                None => match r {
                    Err(e) => match e {
                        WireError::NotFound { requested, available } => requested@ == target_ty@
                            && available.deep_view() == tbl_keys(self.nodes@),
                        _ => false,
                    },
                    Ok(_) => false,
                },
                Some(root) => match r {
                    Ok(plan) => resolve_ok(*self, root, plan@) && !has_reachable_cycle(
                        *self,
                        root,
                    ),
                    Err(e) => match e {
                        WireError::Cycle { chain } => chain@.len() >= 1 && cycle_named(
                            *self,
                            root,
                            chain.deep_view(),
                        ) && has_reachable_cycle(*self, root),
                        WireError::NotFound { requested, available } => available.deep_view()
                            == tbl_keys(self.nodes@) && missing_from(*self, root, requested@)
                            && !closed_from(*self, root),
                        _ => false,
                    },
                },
            },
            match self.lookup(target_ty@) {
                Some(root) => {
                    &&& ((closed_from(*self, root) && !has_reachable_cycle(*self, root))
                        ==> r is Ok)
                    &&& ((closed_from(*self, root) && has_reachable_cycle(*self, root))
                        ==> r matches Err(WireError::Cycle { .. }))
                },
                None => true,
            },
    {
        let t = target_ty.to_owned();
        match self.lookup_idx(&t) {
            None => {
                let available = self.all_keys();
                Err(WireError::NotFound { requested: t, available })
            },
            Some(root) => {
                let ghost g = *self;
                let mut stack: Vec<usize> = Vec::new();
                let mut visited: Vec<usize> = Vec::new();
                let mut plan: Vec<ProviderInfo> = Vec::new();
                proof {
                    g.lemma_lookup_bounds(t@);
                    lemma_reach_refl(g, root as int);
                    assert(plan_views(plan@) =~= project(g, visited@, Set::empty()));
                    assert(dfs_inv(g, root as int, stack@, visited@, plan@));
                }
                let res = self.visit(
                    root,
                    Ghost(root as int),
                    &mut stack,
                    &mut visited,
                    &mut plan,
                );
                match res {
                    Ok(()) => {
                        proof {
                            let order = visited@;
                            assert forall|a: int|
                                0 <= a < g.n() && reaches(g, root as int, a) implies exists|x: int|
                                0 <= x < order.len() && (#[trigger] order[x] as int) == a by {
                                let p = choose|p: Seq<int>|
                                    is_chain(g, p) && p.len() >= 1 && p.first() == root as int
                                        && #[trigger] p.last() == a;
                                assert(order.contains(root));
                                let x0 = choose|x0: int|
                                    0 <= x0 < order.len() && order[x0] == root;
                                assert(order[x0] as int == root as int);
                                lemma_closed_covers(g, root as int, order, p);
                            }
                            assert(order.contains(root));
                            let x0 = choose|x0: int| 0 <= x0 < order.len() && order[x0] == root;
                            assert(order[x0] as int == root as int);
                            assert(order_ok(g, root as int, order));
                            assert(resolve_ok(g, root as int, plan@));
                            lemma_order_acyclic(g, root as int, order);
                        }
                        Ok(plan)
                    },
                    Err(e) => {
                        proof {
                            match &e {
                                WireError::Cycle { chain } => {
                                    lemma_cycle_named_reachable(
                                        g,
                                        root as int,
                                        chain.deep_view(),
                                    );
                                },
                                WireError::NotFound { requested, available } => {
                                    assert(!closed_from(g, root as int)) by {
                                        let (b, t2) = choose|b: int, t2: int|
                                            reaches(g, root as int, b) && 0 <= t2 < g.deps_at(
                                                b,
                                            ).len() && #[trigger] g.deps_at(b)[t2]
                                                == requested@;
                                        assert(g.lookup(g.deps_at(b)[t2]) is None);
                                    }
                                },
                                _ => {},
                            }
                        }
                        Err(e)
                    },
                }
            },
        }
    }
}

} // verus!
