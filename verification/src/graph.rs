//! Provider registry and dependency graph.
//!
//! [`Graph::new`] consumes provider declarations, indexes every
//! declaration by the normalized key of its output type and of each of
//! its bound types, and records the dependency keys contributed by its
//! arguments, in argument order. A type key receiving more than one
//! distinct declaration is a fatal conflict, never resolved by
//! precedence; one declaration whose output and bound types share a key
//! registers it once.
//! [`Graph::resolve`] walks the graph from a target key to a minimal
//! ordered construction plan.

use vstd::prelude::*;

use crate::errors::{ConflictEntry, WireError};
use crate::keys::{normalize_type, spec_normalize};
use crate::models::{
    arg_lookup_ty, clone_string_vec, dep_keys, own_keys, ProviderInfo, ProviderView,
};
use crate::table::{lemma_tbl_find_props, lemma_tbl_find_push, str_list_has, tbl_find, tbl_lookup};

verus! {

/// A graph node: the declaration registered for one type key.
#[derive(Debug)]
pub struct Node {
    pub provider: ProviderInfo,
}

impl View for Node {
    type V = ProviderView;

    open spec fn view(&self) -> ProviderView {
        self.provider@
    }
}

impl Clone for Node {
    fn clone(&self) -> (res: Self)
        ensures
            res@ == self@,
    {
        Node { provider: self.provider.clone() }
    }
}

/// The dependency graph: type keys mapped to their providing declaration
/// and to their ordered dependency keys. Both tables run in parallel, in
/// registration order.
#[derive(Debug)]
pub struct Graph {
    pub nodes: Vec<(String, Node)>,
    pub edges: Vec<(String, Vec<String>)>,
}

/// The provider views of a declaration list.
pub open spec fn views_of(ps: Seq<ProviderInfo>) -> Seq<ProviderView> {
    Seq::new(ps.len(), |i: int| ps[i]@)
}

/// A key list with later repetitions removed, first occurrences kept.
pub open spec fn dedup_keys(ks: Seq<Seq<char>>) -> Seq<Seq<char>>
    decreases ks.len(),
{
    if ks.len() == 0 {
        ks
    } else {
        let pre = dedup_keys(ks.drop_last());
        if ks.drop_last().contains(ks.last()) {
            pre
        } else {
            pre.push(ks.last())
        }
    }
}

/// Removing repetitions changes no memberships.
pub proof fn lemma_dedup_same_elements(ks: Seq<Seq<char>>)
    ensures
        forall|x: Seq<char>| #[trigger] dedup_keys(ks).contains(x) == ks.contains(x),
    decreases ks.len(),
{
    reveal_with_fuel(dedup_keys, 2);
    if ks.len() > 0 {
        lemma_dedup_same_elements(ks.drop_last());
        assert(dedup_keys(ks) == (if ks.drop_last().contains(ks.last()) {
            dedup_keys(ks.drop_last())
        } else {
            dedup_keys(ks.drop_last()).push(ks.last())
        }));
        assert forall|x: Seq<char>| #[trigger] dedup_keys(ks).contains(x) == ks.contains(
            x,
        ) by {
            if ks.contains(x) {
                let i = choose|i: int| 0 <= i < ks.len() && ks[i] == x;
                if i < ks.len() - 1 {
                    assert(ks.drop_last()[i] == x);
                    assert(ks.drop_last().contains(x));
                    assert(dedup_keys(ks.drop_last()).contains(x));
                    let j = choose|j: int|
                        0 <= j < dedup_keys(ks.drop_last()).len() && dedup_keys(
                            ks.drop_last(),
                        )[j] == x;
                    assert(dedup_keys(ks)[j] == x);
                } else {
                    if ks.drop_last().contains(x) {
                        assert(dedup_keys(ks.drop_last()).contains(x));
                        let j = choose|j: int|
                            0 <= j < dedup_keys(ks.drop_last()).len() && dedup_keys(
                                ks.drop_last(),
                            )[j] == x;
                        assert(dedup_keys(ks)[j] == x);
                    } else {
                        assert(dedup_keys(ks).last() == x);
                    }
                }
            }
            if dedup_keys(ks).contains(x) {
                let j = choose|j: int|
                    0 <= j < dedup_keys(ks).len() && dedup_keys(ks)[j] == x;
                if ks.drop_last().contains(ks.last()) {
                    assert(dedup_keys(ks.drop_last())[j] == x);
                    assert(dedup_keys(ks.drop_last()).contains(x));
                    assert(ks.drop_last().contains(x));
                    let i = choose|i: int|
                        0 <= i < ks.drop_last().len() && ks.drop_last()[i] == x;
                    assert(ks[i] == x);
                } else {
                    if j < dedup_keys(ks).len() - 1 {
                        assert(dedup_keys(ks.drop_last())[j] == x);
                        assert(dedup_keys(ks.drop_last()).contains(x));
                        assert(ks.drop_last().contains(x));
                        let i = choose|i: int|
                            0 <= i < ks.drop_last().len() && ks.drop_last()[i] == x;
                        assert(ks[i] == x);
                    } else {
                        assert(x == ks.last());
                        assert(ks[ks.len() - 1] == x);
                    }
                }
            }
        }
    }
}

/// A nonempty key list keeps its first key at the front after
/// deduplication.
pub proof fn lemma_dedup_first(ks: Seq<Seq<char>>)
    requires
        ks.len() >= 1,
    ensures
        dedup_keys(ks).len() >= 1,
        dedup_keys(ks)[0] == ks[0],
    decreases ks.len(),
{
    reveal_with_fuel(dedup_keys, 3);
    if ks.len() == 1 {
        assert(ks.drop_last() =~= Seq::<Seq<char>>::empty());
        assert(!ks.drop_last().contains(ks.last()));
        assert(dedup_keys(ks) == dedup_keys(ks.drop_last()).push(ks.last()));
    } else {
        lemma_dedup_first(ks.drop_last());
        assert(ks.drop_last()[0] == ks[0]);
        assert(dedup_keys(ks) == (if ks.drop_last().contains(ks.last()) {
            dedup_keys(ks.drop_last())
        } else {
            dedup_keys(ks.drop_last()).push(ks.last())
        }));
    }
}

/// The keys one declaration registers, each at most once: its output
/// key and its bound keys in declaration order, repetitions collapsed.
pub open spec fn reg_keys_of(p: ProviderView, ws: Seq<Seq<char>>) -> Seq<Seq<char>> {
    dedup_keys(own_keys(p, ws))
}

/// The registrations contributed by one declaration: one entry per
/// distinct key it registers, in declaration order. A declaration whose
/// output type and a bound type share a key registers that key once —
/// only a second distinct declaration conflicts.
pub open spec fn decl_regs(p: ProviderView, ws: Seq<Seq<char>>) -> Seq<(Seq<char>, ProviderView)> {
    Seq::new(reg_keys_of(p, ws).len(), |i: int| (reg_keys_of(p, ws)[i], p))
}

/// The registrations of a declaration's first `n` keys, repetitions
/// collapsed.
pub open spec fn decl_regs_upto(p: ProviderView, ws: Seq<Seq<char>>, n: int) -> Seq<
    (Seq<char>, ProviderView),
> {
    Seq::new(
        dedup_keys(own_keys(p, ws).take(n)).len(),
        |i: int| (dedup_keys(own_keys(p, ws).take(n))[i], p),
    )
}

/// The registration stream of a whole declaration list.
pub open spec fn flat_regs(ds: Seq<ProviderView>, ws: Seq<Seq<char>>) -> Seq<
    (Seq<char>, ProviderView),
>
    decreases ds.len(),
{
    if ds.len() == 0 {
        Seq::empty()
    } else {
        decl_regs(ds[0], ws) + flat_regs(ds.drop_first(), ws)
    }
}

/// How often key `k` is registered in the stream.
pub open spec fn count_key(rs: Seq<(Seq<char>, ProviderView)>, k: Seq<char>) -> nat
    decreases rs.len(),
{
    if rs.len() == 0 {
        0
    } else {
        (if rs[0].0 == k {
            1nat
        } else {
            0nat
        }) + count_key(rs.drop_first(), k)
    }
}

/// The canonical paths of every declaration registering key `k`, in
/// registration order.
pub open spec fn paths_for(rs: Seq<(Seq<char>, ProviderView)>, k: Seq<char>) -> Seq<Seq<char>>
    decreases rs.len(),
{
    if rs.len() == 0 {
        Seq::empty()
    } else {
        (if rs[0].0 == k {
            seq![rs[0].1.path]
        } else {
            Seq::empty()
        }) + paths_for(rs.drop_first(), k)
    }
}

/// Counting a key equals the number of paths recorded for it.
pub proof fn lemma_count_is_paths_len(rs: Seq<(Seq<char>, ProviderView)>, k: Seq<char>)
    ensures
        count_key(rs, k) == paths_for(rs, k).len(),
    decreases rs.len(),
{
    if rs.len() > 0 {
        lemma_count_is_paths_len(rs.drop_first(), k);
    }
}

/// Appending a registration extends counts and path lists at its key only.
pub proof fn lemma_regs_snoc(rs: Seq<(Seq<char>, ProviderView)>, e: (Seq<char>, ProviderView))
    ensures
        forall|k: Seq<char>| #[trigger] count_key(rs.push(e), k) == count_key(rs, k) + (if e.0 == k {
            1nat
        } else {
            0nat
        }),
        forall|k: Seq<char>| #[trigger] paths_for(rs.push(e), k) == paths_for(rs, k) + (if e.0
            == k {
            seq![e.1.path]
        } else {
            Seq::<Seq<char>>::empty()
        }),
    decreases rs.len(),
{
    if rs.len() == 0 {
        assert forall|k: Seq<char>| #[trigger] count_key(rs.push(e), k) == count_key(rs, k) + (
        if e.0 == k {
            1nat
        } else {
            0nat
        }) by {
            reveal_with_fuel(count_key, 3);
            assert(rs.push(e)[0] == e);
            assert(rs.push(e).drop_first() =~= Seq::<(Seq<char>, ProviderView)>::empty());
        }
        assert forall|k: Seq<char>| #[trigger] paths_for(rs.push(e), k) == paths_for(rs, k) + (
        if e.0 == k {
            seq![e.1.path]
        } else {
            Seq::<Seq<char>>::empty()
        }) by {
            reveal_with_fuel(paths_for, 3);
            assert(rs.push(e)[0] == e);
            assert(rs.push(e).drop_first() =~= Seq::<(Seq<char>, ProviderView)>::empty());
            if e.0 == k {
                assert(paths_for(rs.push(e), k) =~= paths_for(rs, k) + seq![e.1.path]);
            } else {
                assert(paths_for(rs.push(e), k) =~= paths_for(rs, k));
            }
        }
    } else {
        lemma_regs_snoc(rs.drop_first(), e);
        assert(rs.push(e)[0] == rs[0]);
        assert(rs.push(e).drop_first() =~= rs.drop_first().push(e));
        assert forall|k: Seq<char>| #[trigger] count_key(rs.push(e), k) == count_key(rs, k) + (
        if e.0 == k {
            1nat
        } else {
            0nat
        }) by {
            reveal_with_fuel(count_key, 2);
            assert(count_key(rs.push(e), k) == (if rs[0].0 == k {
                1nat
            } else {
                0nat
            }) + count_key(rs.drop_first().push(e), k));
        }
        assert forall|k: Seq<char>| #[trigger] paths_for(rs.push(e), k) == paths_for(rs, k) + (
        if e.0 == k {
            seq![e.1.path]
        } else {
            Seq::<Seq<char>>::empty()
        }) by {
            reveal_with_fuel(paths_for, 2);
            assert(paths_for(rs.push(e), k) == (if rs[0].0 == k {
                seq![rs[0].1.path]
            } else {
                Seq::<Seq<char>>::empty()
            }) + paths_for(rs.drop_first().push(e), k));
            assert(paths_for(rs.push(e), k) =~= paths_for(rs, k) + (if e.0 == k {
                seq![e.1.path]
            } else {
                Seq::<Seq<char>>::empty()
            }));
        }
    }
}

/// A doubly registered key counts at least twice.
pub proof fn lemma_dup_counts_twice(rs: Seq<(Seq<char>, ProviderView)>, i: int, j: int)
    requires
        0 <= i < j < rs.len(),
        rs[i].0 == rs[j].0,
    ensures
        count_key(rs, rs[i].0) >= 2,
    decreases rs.len(),
{
    if i == 0 {
        lemma_member_counts_once(rs.drop_first(), j - 1);
    } else {
        lemma_dup_counts_twice(rs.drop_first(), i - 1, j - 1);
    }
}

/// A registered key counts at least once.
pub proof fn lemma_member_counts_once(rs: Seq<(Seq<char>, ProviderView)>, i: int)
    requires
        0 <= i < rs.len(),
    ensures
        count_key(rs, rs[i].0) >= 1,
    decreases rs.len(),
{
    if i > 0 {
        lemma_member_counts_once(rs.drop_first(), i - 1);
    }
}

/// The registration stream of a list extended by one declaration.
pub proof fn lemma_flat_regs_snoc(ds: Seq<ProviderView>, d: ProviderView, ws: Seq<Seq<char>>)
    ensures
        flat_regs(ds.push(d), ws) == flat_regs(ds, ws) + decl_regs(d, ws),
    decreases ds.len(),
{
    reveal_with_fuel(flat_regs, 3);
    if ds.len() == 0 {
        assert(ds.push(d)[0] == d);
        assert(ds.push(d).drop_first() =~= Seq::<ProviderView>::empty());
        assert(flat_regs(ds.push(d), ws) =~= flat_regs(ds, ws) + decl_regs(d, ws));
    } else {
        lemma_flat_regs_snoc(ds.drop_first(), d, ws);
        assert(ds.push(d)[0] == ds[0]);
        assert(ds.push(d).drop_first() =~= ds.drop_first().push(d));
        assert(flat_regs(ds.push(d), ws) =~= flat_regs(ds, ws) + decl_regs(d, ws));
    }
}

/// The registration stream of a declaration list, by value.
pub open spec fn regs_of(ps: Seq<ProviderInfo>, ws: Seq<Seq<char>>) -> Seq<
    (Seq<char>, ProviderView),
> {
    flat_regs(views_of(ps), ws)
}

/// The path list recorded for key `k` in the registration table `m`:
/// the paths of its first matching row, or empty when no row holds `k`.
pub open spec fn tbl_paths_of(m: Seq<(String, Vec<String>)>, k: Seq<char>) -> Seq<Seq<char>> {
    match tbl_find(m, k) {
        Some(i) => m[i].1.deep_view(),
        None => Seq::empty(),
    }
}

/// The registration table `m` agrees with the registration stream `rs`.
pub open spec fn regs_match(m: Seq<(String, Vec<String>)>, rs: Seq<(Seq<char>, ProviderView)>)
    -> bool {
    &&& forall|k: Seq<char>| #[trigger] tbl_paths_of(m, k) == paths_for(rs, k)
    &&& forall|i: int, j: int| 0 <= i < j < m.len() ==> m[i].0@ != m[j].0@
}

/// Record one registration of key `k` by the declaration at `path`.
#[verifier::loop_isolation(false)]
fn add_reg(
    m: &mut Vec<(String, Vec<String>)>,
    k: String,
    path: String,
    Ghost(rs): Ghost<Seq<(Seq<char>, ProviderView)>>,
    Ghost(pv): Ghost<ProviderView>,
)
    requires
        regs_match(old(m)@, rs),
        pv.path == path@,
    ensures
        regs_match(final(m)@, rs.push((k@, pv))),
{
    proof {
        lemma_regs_snoc(rs, (k@, pv));
        lemma_tbl_find_props(m@, k@);
    }
    let ghost m0 = m@;
    match tbl_lookup(m, &k) {
        Some(i) => {
            m[i].1.push(path);
            proof {
                assert(m@ =~= m0.update(
                    i as int,
                    (m0[i as int].0, m@[i as int].1),
                ));
                assert(m@[i as int].1.deep_view() =~= m0[i as int].1.deep_view() + seq![pv.path]);
                assert forall|k2: Seq<char>| #[trigger] tbl_paths_of(m@, k2) == paths_for(
                    rs.push((k@, pv)),
                    k2,
                ) by {
                    lemma_tbl_find_props(m0, k2);
                    lemma_tbl_find_props(m@, k2);
                    assert(tbl_paths_of(m0, k2) == paths_for(rs, k2));
                    if k2 == k@ {
                        assert(tbl_find(m@, k2) == Some(i as int));
                    } else {
                        match tbl_find(m0, k2) {
                            Some(p) => {
                                assert(m@[p].0@ == k2);
                                assert(tbl_find(m@, k2) == Some(p));
                                if p == i as int {
                                    assert(m0[p].0@ == k@);
                                }
                                assert(tbl_paths_of(m@, k2) == tbl_paths_of(m0, k2));
                            },
                            None => {
                                assert(forall|t: int|
                                    0 <= t < m@.len() ==> m@[t].0@ == m0[t].0@);
                                assert(tbl_find(m@, k2) is None);
                            },
                        }
                        assert(paths_for(rs.push((k@, pv)), k2) =~= paths_for(rs, k2));
                    }
                }
            }
        },
        None => {
            let mut paths: Vec<String> = Vec::new();
            paths.push(path);
            m.push((k, paths));
            proof {
                let e = m@[m@.len() - 1];
                assert(m@ =~= m0.push(e));
                assert forall|k2: Seq<char>| #[trigger] tbl_paths_of(m@, k2) == paths_for(
                    rs.push((e.0@, pv)),
                    k2,
                ) by {
                    lemma_tbl_find_push(m0, k2, e);
                    lemma_tbl_find_props(m0, k2);
                    assert(tbl_paths_of(m0, k2) == paths_for(rs, k2));
                    if k2 == e.0@ {
                        assert(tbl_find(m0, k2) is None);
                        assert(tbl_find(m@, k2) == Some(m0.len() as int));
                        assert(paths_for(rs, k2) =~= Seq::<Seq<char>>::empty());
                        assert(e.1.deep_view() =~= seq![pv.path]);
                        assert(paths_for(rs.push((e.0@, pv)), k2) =~= seq![pv.path]);
                    } else {
                        match tbl_find(m0, k2) {
                            Some(p) => {
                                assert(m@[p] == m0[p]);
                            },
                            None => {},
                        }
                        assert(paths_for(rs.push((e.0@, pv)), k2) =~= paths_for(rs, k2));
                    }
                }
                assert forall|i: int, j: int| 0 <= i < j < m@.len() implies m@[i].0@ != m@[j].0@ by {
                    if j == m@.len() - 1 {
                        lemma_tbl_find_props(m0, e.0@);
                        assert(m@[i].0@ == m0[i].0@);
                    }
                }
            }
        },
    }
}

/// Build the registration table of a declaration list.
#[verifier::loop_isolation(false)]
fn build_regs(providers: &Vec<ProviderInfo>, wrappers: &Vec<String>) -> (m: Vec<
    (String, Vec<String>),
>)
    ensures
        regs_match(m@, flat_regs(views_of(providers@), wrappers.deep_view())),
{
    let ghost ws = wrappers.deep_view();
    let ghost pviews = views_of(providers@);
    let mut m: Vec<(String, Vec<String>)> = Vec::new();
    proof {
        assert(pviews.take(0) =~= Seq::<ProviderView>::empty());
        assert forall|k: Seq<char>| #[trigger] tbl_paths_of(m@, k) == paths_for(
            flat_regs(pviews.take(0), ws),
            k,
        ) by {
            lemma_tbl_find_props(m@, k);
        }
    }
    let mut i: usize = 0;
    while i < providers.len()
        invariant
            i <= providers@.len(),
            pviews == views_of(providers@),
            ws == wrappers.deep_view(),
            regs_match(m@, flat_regs(pviews.take(i as int), ws)),
        decreases providers.len() - i,
    {
        let ghost rs0 = flat_regs(pviews.take(i as int), ws);
        let ghost pv = providers@[i as int]@;
        let p = &providers[i];
        let ret_key = normalize_type(p.ret.as_str(), wrappers);
        let mut seen: Vec<String> = Vec::new();
        seen.push(ret_key.clone());
        add_reg(&mut m, ret_key, p.path.clone(), Ghost(rs0), Ghost(pv));
        proof {
            assert(own_keys(pv, ws)[0] == spec_normalize(pv.ret, ws));
            assert(seen.deep_view() =~= own_keys(pv, ws).take(1));
            let k1 = own_keys(pv, ws).take(1);
            reveal_with_fuel(dedup_keys, 3);
            assert(k1.drop_last() =~= Seq::<Seq<char>>::empty());
            assert(!k1.drop_last().contains(k1.last()));
            assert(dedup_keys(k1) == dedup_keys(k1.drop_last()).push(k1.last()));
            assert(dedup_keys(k1) =~= seq![spec_normalize(pv.ret, ws)]);
            assert(rs0.push((spec_normalize(pv.ret, ws), pv)) =~= rs0 + decl_regs_upto(
                pv,
                ws,
                1,
            ));
        }
        let mut j: usize = 0;
        while j < p.bindings.len()
            invariant
                j <= p.bindings@.len(),
                pviews == views_of(providers@),
                ws == wrappers.deep_view(),
                i < providers@.len(),
                p == &providers[i as int],
                pv == providers@[i as int]@,
                rs0 == flat_regs(pviews.take(i as int), ws),
                seen.deep_view() == own_keys(pv, ws).take(1 + j),
                regs_match(m@, rs0 + decl_regs_upto(pv, ws, 1 + j)),
            decreases p.bindings.len() - j,
        {
            let bk = normalize_type(p.bindings[j].as_str(), wrappers);
            proof {
                assert(pv.bindings[j as int] == p.bindings@[j as int]@);
                assert(own_keys(pv, ws)[1 + j] == spec_normalize(pv.bindings[j as int], ws));
                assert(own_keys(pv, ws).take(1 + j + 1) =~= own_keys(pv, ws).take(1 + j).push(
                    bk@,
                ));
                assert(own_keys(pv, ws).take(1 + j + 1).drop_last() =~= own_keys(pv, ws).take(
                    1 + j,
                ));
            }
            if str_list_has(&seen, &bk) {
                proof {
                    assert(own_keys(pv, ws).take(1 + j).contains(bk@));
                    assert(own_keys(pv, ws).take(1 + j + 1).last() == bk@);
                    assert(own_keys(pv, ws).take(1 + j + 1).drop_last().contains(bk@));
                    assert(dedup_keys(own_keys(pv, ws).take(1 + j + 1)) == dedup_keys(
                        own_keys(pv, ws).take(1 + j),
                    ));
                    assert(decl_regs_upto(pv, ws, 1 + j + 1) =~= decl_regs_upto(pv, ws, 1 + j));
                }
            } else {
                proof {
                    assert(!own_keys(pv, ws).take(1 + j).contains(bk@));
                    assert(own_keys(pv, ws).take(1 + j + 1).last() == bk@);
                    assert(!own_keys(pv, ws).take(1 + j + 1).drop_last().contains(bk@));
                    assert(dedup_keys(own_keys(pv, ws).take(1 + j + 1)) == dedup_keys(
                        own_keys(pv, ws).take(1 + j),
                    ).push(bk@));
                    assert((rs0 + decl_regs_upto(pv, ws, 1 + j)).push((bk@, pv)) =~= rs0
                        + decl_regs_upto(pv, ws, 1 + j + 1));
                }
                add_reg(
                    &mut m,
                    bk.clone(),
                    p.path.clone(),
                    Ghost(rs0 + decl_regs_upto(pv, ws, 1 + j)),
                    Ghost(pv),
                );
            }
            seen.push(bk);
            proof {
                assert(seen.deep_view() =~= own_keys(pv, ws).take(1 + j + 1));
            }
            j = j + 1;
        }
        proof {
            assert(own_keys(pv, ws).take(1 + p.bindings@.len() as int) =~= own_keys(pv, ws));
            assert(decl_regs_upto(pv, ws, 1 + p.bindings@.len() as int) =~= decl_regs(pv, ws));
            lemma_flat_regs_snoc(pviews.take(i as int), pv, ws);
            assert(pviews.take(i as int).push(pv) =~= pviews.take(i + 1));
        }
        i = i + 1;
    }
    proof {
        assert(pviews.take(providers@.len() as int) =~= pviews);
    }
    m
}

/// Collect one conflict entry per key registered more than once.
#[verifier::loop_isolation(false)]
fn collect_conflicts(
    m: &Vec<(String, Vec<String>)>,
    Ghost(rs): Ghost<Seq<(Seq<char>, ProviderView)>>,
) -> (entries: Vec<ConflictEntry>)
    requires
        regs_match(m@, rs),
    ensures
        forall|j: int|
            0 <= j < entries@.len() ==> count_key(rs, #[trigger] entries@[j].key@) >= 2
                && entries@[j].paths.deep_view() == paths_for(rs, entries@[j].key@),
        forall|k: Seq<char>|
            #[trigger] count_key(rs, k) >= 2 ==> exists|j: int|
                0 <= j < entries@.len() && entries@[j].key@ == k,
        forall|j1: int, j2: int|
            0 <= j1 < j2 < entries@.len() ==> entries@[j1].key@ != entries@[j2].key@,
{
    let mut entries: Vec<ConflictEntry> = Vec::new();
    let mut i: usize = 0;
    while i < m.len()
        invariant
            i <= m@.len(),
            forall|j: int|
                0 <= j < entries@.len() ==> exists|t: int|
                    0 <= t < i && #[trigger] entries@[j].key@ == m@[t].0@,
            forall|j: int|
                0 <= j < entries@.len() ==> count_key(rs, #[trigger] entries@[j].key@) >= 2
                    && entries@[j].paths.deep_view() == paths_for(rs, entries@[j].key@),
            forall|t: int|
                0 <= t < i && m@[t].1@.len() >= 2 ==> exists|j: int|
                    0 <= j < entries@.len() && entries@[j].key@ == #[trigger] m@[t].0@,
            forall|j1: int, j2: int|
                0 <= j1 < j2 < entries@.len() ==> entries@[j1].key@ != entries@[j2].key@,
        decreases m.len() - i,
    {
        if m[i].1.len() >= 2 {
            proof {
                lemma_tbl_find_props(m@, m@[i as int].0@);
                match tbl_find(m@, m@[i as int].0@) {
                    Some(p) => {
                        if p < i {
                            assert(m@[p].0@ != m@[i as int].0@);
                        }
                        if i < p {
                            assert(m@[i as int].0@ != m@[i as int].0@);
                        }
                        assert(p == i as int);
                    },
                    None => {
                        assert(m@[i as int].0@ != m@[i as int].0@);
                    },
                }
                assert(tbl_paths_of(m@, m@[i as int].0@) == m@[i as int].1.deep_view());
                assert(paths_for(rs, m@[i as int].0@) == m@[i as int].1.deep_view());
                lemma_count_is_paths_len(rs, m@[i as int].0@);
                assert(m@[i as int].1.deep_view().len() == m@[i as int].1@.len());
            }
            let entry = ConflictEntry {
                key: m[i].0.clone(),
                paths: clone_string_vec(&m[i].1),
            };
            let ghost entries0 = entries@;
            entries.push(entry);
            proof {
                assert(entries@[entries@.len() - 1].key@ == m@[i as int].0@);
                assert(forall|j: int| 0 <= j < entries0.len() ==> entries@[j] == entries0[j]);
                assert forall|t: int|
                    0 <= t < i + 1 && m@[t].1@.len() >= 2 implies exists|j: int|
                    0 <= j < entries@.len() && entries@[j].key@ == #[trigger] m@[t].0@ by {
                    if t < i {
                        let j = choose|j: int|
                            0 <= j < entries0.len() && entries0[j].key@ == m@[t].0@;
                        assert(entries@[j].key@ == m@[t].0@);
                    } else {
                        assert(entries@[entries@.len() - 1].key@ == m@[t].0@);
                    }
                }
            }
        }
        i = i + 1;
    }
    proof {
        assert forall|k: Seq<char>| #[trigger] count_key(rs, k) >= 2 implies exists|j: int|
            0 <= j < entries@.len() && entries@[j].key@ == k by {
            lemma_count_is_paths_len(rs, k);
            assert(tbl_paths_of(m@, k) == paths_for(rs, k));
            lemma_tbl_find_props(m@, k);
            match tbl_find(m@, k) {
                Some(t) => {
                    assert(m@[t].1.deep_view().len() >= 2);
                    assert(m@[t].1@.len() >= 2);
                },
                None => {
                    assert(tbl_paths_of(m@, k).len() == 0);
                },
            }
        }
    }
    entries
}

/// The normalized dependency keys of one declaration, in argument order.
#[verifier::loop_isolation(false)]
fn dep_keys_of(p: &ProviderInfo, wrappers: &Vec<String>) -> (deps: Vec<String>)
    ensures
        deps.deep_view() == dep_keys(p@, wrappers.deep_view()),
{
    let mut deps: Vec<String> = Vec::new();
    let mut k: usize = 0;
    while k < p.args.len()
        invariant
            k <= p.args@.len(),
            deps@.len() == k,
            forall|t: int|
                0 <= t < k ==> deps@[t]@ == spec_normalize(
                    arg_lookup_ty(#[trigger] p@.args[t]),
                    wrappers.deep_view(),
                ),
        decreases p.args.len() - k,
    {
        let key = normalize_type(p.args[k].lookup_ty().as_str(), wrappers);
        proof {
            assert(p@.args[k as int] == p.args@[k as int]@);
        }
        deps.push(key);
        k = k + 1;
    }
    proof {
        assert(deps.deep_view() =~= dep_keys(p@, wrappers.deep_view()));
    }
    deps
}

/// Build the node and edge tables from a conflict-free declaration list.
#[verifier::loop_isolation(false)]
#[verifier::rlimit(100)]
#[verifier::spinoff_prover]
fn build_tables(providers: &Vec<ProviderInfo>, wrappers: &Vec<String>) -> (g: Graph)
    ensures
        g.nodes@.len() == regs_of(providers@, wrappers.deep_view()).len(),
        g.edges@.len() == regs_of(providers@, wrappers.deep_view()).len(),
        forall|t: int|
            0 <= t < g.nodes@.len() ==> {
                let rs = regs_of(providers@, wrappers.deep_view());
                (#[trigger] g.nodes@[t]).0@ == rs[t].0 && g.nodes@[t].1@ == rs[t].1
                    && g.edges@[t].0@ == rs[t].0 && g.edges@[t].1.deep_view() == dep_keys(
                    rs[t].1,
                    wrappers.deep_view(),
                )
            },
{
    let ghost ws = wrappers.deep_view();
    let ghost pviews = views_of(providers@);
    let mut nodes: Vec<(String, Node)> = Vec::new();
    let mut edges: Vec<(String, Vec<String>)> = Vec::new();
    proof {
        assert(pviews.take(0) =~= Seq::<ProviderView>::empty());
    }
    let mut i: usize = 0;
    while i < providers.len()
        invariant
            i <= providers@.len(),
            pviews == views_of(providers@),
            ws == wrappers.deep_view(),
            nodes@.len() == flat_regs(pviews.take(i as int), ws).len(),
            edges@.len() == nodes@.len(),
            forall|t: int|
                0 <= t < nodes@.len() ==> {
                    let rs = flat_regs(pviews.take(i as int), ws);
                    (#[trigger] nodes@[t]).0@ == rs[t].0 && nodes@[t].1@ == rs[t].1
                        && edges@[t].0@ == rs[t].0 && edges@[t].1.deep_view() == dep_keys(
                        rs[t].1,
                        ws,
                    )
                },
        decreases providers.len() - i,
    {
        let ghost rs0 = flat_regs(pviews.take(i as int), ws);
        let ghost pv = providers@[i as int]@;
        let p = &providers[i];
        let deps = dep_keys_of(p, wrappers);
        let ret_key = normalize_type(p.ret.as_str(), wrappers);
        let mut seen: Vec<String> = Vec::new();
        seen.push(ret_key.clone());
        nodes.push((ret_key.clone(), Node { provider: p.clone() }));
        edges.push((ret_key, clone_string_vec(&deps)));
        proof {
            assert(own_keys(pv, ws)[0] == spec_normalize(pv.ret, ws));
            assert(seen.deep_view() =~= own_keys(pv, ws).take(1));
            let k1 = own_keys(pv, ws).take(1);
            reveal_with_fuel(dedup_keys, 3);
            assert(k1.drop_last() =~= Seq::<Seq<char>>::empty());
            assert(!k1.drop_last().contains(k1.last()));
            assert(dedup_keys(k1) == dedup_keys(k1.drop_last()).push(k1.last()));
            assert(dedup_keys(k1) =~= seq![spec_normalize(pv.ret, ws)]);
            assert(decl_regs_upto(pv, ws, 1) =~= seq![(spec_normalize(pv.ret, ws), pv)]);
        }
        let mut j: usize = 0;
        while j < p.bindings.len()
            invariant
                j <= p.bindings@.len(),
                pviews == views_of(providers@),
                ws == wrappers.deep_view(),
                i < providers@.len(),
                p == &providers[i as int],
                pv == providers@[i as int]@,
                rs0 == flat_regs(pviews.take(i as int), ws),
                deps.deep_view() == dep_keys(pv, ws),
                seen.deep_view() == own_keys(pv, ws).take(1 + j),
                nodes@.len() == rs0.len() + decl_regs_upto(pv, ws, 1 + j).len(),
                edges@.len() == nodes@.len(),
                forall|t: int|
                    0 <= t < nodes@.len() ==> {
                        let rs = rs0 + decl_regs_upto(pv, ws, 1 + j);
                        (#[trigger] nodes@[t]).0@ == rs[t].0 && nodes@[t].1@ == rs[t].1
                            && edges@[t].0@ == rs[t].0 && edges@[t].1.deep_view() == dep_keys(
                            rs[t].1,
                            ws,
                        )
                    },
            decreases p.bindings.len() - j,
        {
            let bk = normalize_type(p.bindings[j].as_str(), wrappers);
            proof {
                assert(pv.bindings[j as int] == p.bindings@[j as int]@);
                assert(own_keys(pv, ws)[1 + j] == spec_normalize(pv.bindings[j as int], ws));
                assert(own_keys(pv, ws).take(1 + j + 1) =~= own_keys(pv, ws).take(1 + j).push(
                    bk@,
                ));
                assert(own_keys(pv, ws).take(1 + j + 1).drop_last() =~= own_keys(pv, ws).take(
                    1 + j,
                ));
            }
            if str_list_has(&seen, &bk) {
                proof {
                    assert(own_keys(pv, ws).take(1 + j).contains(bk@));
                    assert(own_keys(pv, ws).take(1 + j + 1).last() == bk@);
                    assert(own_keys(pv, ws).take(1 + j + 1).drop_last().contains(bk@));
                    assert(dedup_keys(own_keys(pv, ws).take(1 + j + 1)) == dedup_keys(
                        own_keys(pv, ws).take(1 + j),
                    ));
                    assert(decl_regs_upto(pv, ws, 1 + j + 1) =~= decl_regs_upto(
                        pv,
                        ws,
                        1 + j,
                    ));
                }
            } else {
                nodes.push((bk.clone(), Node { provider: p.clone() }));
                edges.push((bk.clone(), clone_string_vec(&deps)));
                proof {
                    assert(!own_keys(pv, ws).take(1 + j).contains(bk@));
                    assert(own_keys(pv, ws).take(1 + j + 1).last() == bk@);
                    assert(!own_keys(pv, ws).take(1 + j + 1).drop_last().contains(bk@));
                    assert(dedup_keys(own_keys(pv, ws).take(1 + j + 1)) == dedup_keys(
                        own_keys(pv, ws).take(1 + j),
                    ).push(bk@));
                    assert(decl_regs_upto(pv, ws, 1 + j + 1) =~= decl_regs_upto(
                        pv,
                        ws,
                        1 + j,
                    ).push((bk@, pv)));
                    assert forall|t: int| 0 <= t < nodes@.len() implies {
                        let rs = rs0 + decl_regs_upto(pv, ws, 1 + j + 1);
                        (#[trigger] nodes@[t]).0@ == rs[t].0 && nodes@[t].1@ == rs[t].1
                            && edges@[t].0@ == rs[t].0 && edges@[t].1.deep_view() == dep_keys(
                            rs[t].1,
                            ws,
                        )
                    } by {
                        let rs_old = rs0 + decl_regs_upto(pv, ws, 1 + j);
                        let rs = rs0 + decl_regs_upto(pv, ws, 1 + j + 1);
                        if t < nodes@.len() - 1 {
                            assert(rs[t] == rs_old[t]);
                        } else {
                            assert(rs[t] == (bk@, pv));
                        }
                    }
                }
            }
            seen.push(bk);
            proof {
                assert(seen.deep_view() =~= own_keys(pv, ws).take(1 + j + 1));
            }
            j = j + 1;
        }
        proof {
            assert(own_keys(pv, ws).take(1 + p.bindings@.len() as int) =~= own_keys(pv, ws));
            assert(decl_regs_upto(pv, ws, 1 + p.bindings@.len() as int) =~= decl_regs(pv, ws));
            lemma_flat_regs_snoc(pviews.take(i as int), pv, ws);
            assert(pviews.take(i as int).push(pv) =~= pviews.take(i + 1));
            assert(flat_regs(pviews.take(i + 1), ws) == rs0 + decl_regs(pv, ws));
        }
        i = i + 1;
    }
    proof {
        assert(pviews.take(providers@.len() as int) =~= pviews);
    }
    Graph { nodes, edges }
}

impl Graph {
    /// Number of registered type keys.
    pub open spec fn n(self) -> nat {
        self.nodes@.len()
    }

    /// The type key at table position `i`.
    pub open spec fn key_at(self, i: int) -> Seq<char> {
        self.nodes@[i].0@
    }

    /// The declaration registered at table position `i`.
    pub open spec fn node_at(self, i: int) -> ProviderView {
        self.nodes@[i].1@
    }

    /// The ordered dependency keys at table position `i`.
    pub open spec fn deps_at(self, i: int) -> Seq<Seq<char>> {
        self.edges@[i].1.deep_view()
    }

    /// Well-formedness: the node and edge tables run in parallel and no
    /// key is registered twice.
    pub open spec fn wf(self) -> bool {
        &&& self.edges@.len() == self.nodes@.len()
        &&& forall|i: int| 0 <= i < self.n() ==> self.edges@[i].0@ == #[trigger] self.key_at(i)
        &&& forall|i: int, j: int|
            0 <= i < j < self.n() ==> self.key_at(i) != self.key_at(j)
    }

    /// Build the dependency graph of a declaration list.
    ///
    /// Every declaration registers the normalized key of its output type
    /// and of each bound type, each key once even when the output and a
    /// bound type coincide; a key receiving more than one distinct
    /// declaration is a fatal conflict enumerating, per key, every
    /// colliding canonical path.
    pub fn new(providers: &Vec<ProviderInfo>, wrappers: &Vec<String>) -> (r: Result<
        Graph,
        WireError,
    >)
        ensures
            ((r is Err) <==> exists|k: Seq<char>|
                #[trigger] count_key(regs_of(providers@, wrappers.deep_view()), k) >= 2),
            match r {
                Ok(g) => {
                    &&& g.wf()
                    &&& g.n() == regs_of(providers@, wrappers.deep_view()).len()
                    &&& forall|t: int|
                        0 <= t < g.n() ==> {
                            let rs = regs_of(providers@, wrappers.deep_view());
                            #[trigger] g.key_at(t) == rs[t].0 && g.node_at(t) == rs[t].1
                                && g.deps_at(t) == dep_keys(rs[t].1, wrappers.deep_view())
                        }
                },
                Err(e) => match e {
                    WireError::Conflict { entries } => {
                        &&& entries@.len() >= 1
                        &&& forall|j: int|
                            0 <= j < entries@.len() ==> count_key(
                                regs_of(providers@, wrappers.deep_view()),
                                #[trigger] entries@[j].key@,
                            ) >= 2 && entries@[j].paths.deep_view() == paths_for(
                                regs_of(providers@, wrappers.deep_view()),
                                entries@[j].key@,
                            )
                        &&& forall|k: Seq<char>|
                            #[trigger] count_key(regs_of(providers@, wrappers.deep_view()), k)
                                >= 2 ==> exists|j: int|
                                0 <= j < entries@.len() && entries@[j].key@ == k
                        &&& forall|j1: int, j2: int|
                            0 <= j1 < j2 < entries@.len() ==> entries@[j1].key@
                                != entries@[j2].key@
                    },
                    _ => false,
                },
            },
    {
        let ghost ws = wrappers.deep_view();
        let ghost rs = flat_regs(views_of(providers@), ws);
        let regs = build_regs(providers, wrappers);
        let entries = collect_conflicts(&regs, Ghost(rs));
        if entries.len() > 0 {
            proof {
                assert(regs_of(providers@, wrappers.deep_view()) == rs);
                assert(count_key(regs_of(providers@, wrappers.deep_view()), entries@[0].key@)
                    >= 2);
            }
            return Err(WireError::Conflict { entries });
        }
        proof {
            assert(regs_of(providers@, wrappers.deep_view()) == rs);
        }
        let g = build_tables(providers, wrappers);
        proof {
            assert forall|k: Seq<char>| !(#[trigger] count_key(rs, k) >= 2) by {
                if count_key(rs, k) >= 2 {
                    let j = choose|j: int|
                        0 <= j < entries@.len() && entries@[j].key@ == k;
                    assert(false);
                }
            }
            assert forall|i: int, j: int| 0 <= i < j < g.n() implies g.key_at(i) != g.key_at(
                j,
            ) by {
                if g.key_at(i) == g.key_at(j) {
                    lemma_dup_counts_twice(rs, i, j);
                }
            }
        }
        Ok(g)
    }
}

} // verus!
