//! String-keyed association lists.
//!
//! The registry, the graph and the synthesizer index small collections by
//! type-key strings. They are kept as vectors of pairs, looked up by the
//! first matching key, so that every lookup is deterministic and fully
//! specified.

use vstd::prelude::*;

verus! {

/// The keys of an association list, in order.
pub open spec fn tbl_keys<V>(m: Seq<(String, V)>) -> Seq<Seq<char>> {
    Seq::new(m.len(), |i: int| m[i].0@)
}

/// First index holding key `k`, if any, scanning from `i`.
pub open spec fn tbl_find_from<V>(m: Seq<(String, V)>, k: Seq<char>, i: int) -> Option<int>
    decreases m.len() - i,
    when 0 <= i
{
    if i >= m.len() {
        None
    } else if m[i].0@ == k {
        Some(i)
    } else {
        tbl_find_from(m, k, i + 1)
    }
}

/// First index holding key `k`, if any.
pub open spec fn tbl_find<V>(m: Seq<(String, V)>, k: Seq<char>) -> Option<int> {
    tbl_find_from(m, k, 0)
}

/// True when some entry holds key `k`.
pub open spec fn tbl_has<V>(m: Seq<(String, V)>, k: Seq<char>) -> bool {
    tbl_find(m, k) is Some
}

/// `tbl_find_from` finds exactly the first entry with the key.
pub proof fn lemma_tbl_find_from_props<V>(m: Seq<(String, V)>, k: Seq<char>, i: int)
    requires
        0 <= i,
    ensures
        match tbl_find_from(m, k, i) {
            Some(p) => i <= p < m.len() && m[p].0@ == k && forall|j: int|
                i <= j < p ==> m[j].0@ != k,
            None => forall|j: int| i <= j < m.len() ==> m[j].0@ != k,
        },
    decreases m.len() - i,
{
    if i < m.len() && m[i].0@ != k {
        lemma_tbl_find_from_props(m, k, i + 1);
    }
}

/// `tbl_find` finds exactly the first entry with the key.
pub proof fn lemma_tbl_find_props<V>(m: Seq<(String, V)>, k: Seq<char>)
    ensures
        match tbl_find(m, k) {
            Some(p) => 0 <= p < m.len() && m[p].0@ == k && forall|j: int|
                0 <= j < p ==> m[j].0@ != k,
            None => forall|j: int| 0 <= j < m.len() ==> m[j].0@ != k,
        },
{
    lemma_tbl_find_from_props(m, k, 0);
}

/// Appending an entry does not change the result of a successful find,
/// and a failed find lands on the appended entry when its key matches.
pub proof fn lemma_tbl_find_push<V>(m: Seq<(String, V)>, k: Seq<char>, e: (String, V))
    ensures
        tbl_find(m.push(e), k) == (match tbl_find(m, k) {
            Some(p) => Some(p),
            None => {
                if e.0@ == k {
                    Some(m.len() as int)
                } else {
                    None::<int>
                }
            },
        }),
{
    lemma_tbl_find_props(m, k);
    lemma_tbl_find_props(m.push(e), k);
    match tbl_find(m, k) {
        Some(p) => {
            assert(m.push(e)[p].0@ == k);
            match tbl_find(m.push(e), k) {
                Some(q) => {
                    if q < p {
                        assert(m[q].0@ != k);
                        assert(m.push(e)[q] == m[q]);
                    }
                    if p < q {
                    }
                },
                None => {},
            }
        },
        None => {
            match tbl_find(m.push(e), k) {
                Some(q) => {
                    if q < m.len() {
                        assert(m.push(e)[q] == m[q]);
                    }
                },
                None => {
                    if e.0@ == k {
                        assert(m.push(e)[m.len() as int].0@ == k);
                    }
                },
            }
        },
    }
}

/// Look up the first entry with key `k`, returning its index.
#[verifier::loop_isolation(false)]
pub fn tbl_lookup<V>(m: &Vec<(String, V)>, k: &String) -> (r: Option<usize>)
    ensures
        match r {
            Some(p) => tbl_find(m@, k@) == Some(p as int),
            None => tbl_find(m@, k@) is None,
        },
{
    let mut i: usize = 0;
    while i < m.len()
        invariant
            i <= m@.len(),
            forall|j: int| 0 <= j < i ==> m@[j].0@ != k@,
        decreases m.len() - i,
    {
        if m[i].0 == *k {
            proof {
                lemma_tbl_find_props(m@, k@);
                match tbl_find(m@, k@) {
                    Some(p) => {
                        if p < i {
                            assert(m@[p].0@ != k@);
                        }
                        if i < p {
                            assert(m@[i as int].0@ != k@);
                        }
                    },
                    None => {
                        assert(m@[i as int].0@ != k@);
                    },
                }
            }
            return Some(i);
        }
        i = i + 1;
    }
    proof {
        lemma_tbl_find_props(m@, k@);
    }
    None
}

/// Does the string list hold this exact entry?
#[verifier::loop_isolation(false)]
pub fn str_list_has(v: &Vec<String>, x: &String) -> (r: bool)
    ensures
        r == v.deep_view().contains(x@),
{
    let mut i: usize = 0;
    while i < v.len()
        invariant
            i <= v@.len(),
            forall|j: int| 0 <= j < i ==> v.deep_view()[j] != x@,
        decreases v.len() - i,
    {
        if v[i] == *x {
            proof {
                assert(v.deep_view()[i as int] == x@);
            }
            return true;
        }
        i = i + 1;
    }
    proof {
        if v.deep_view().contains(x@) {
            let j = choose|j: int| 0 <= j < v.deep_view().len() && v.deep_view()[j] == x@;
        }
    }
    false
}

} // verus!
