//! The scanning pass's state: the providers found so far and the
//! dependency-ordered collection walk.
//!
//! Reading source files and parsing declarations stay with the caller;
//! the scanner receives ready provider signatures keyed by their
//! qualified output type, and collects, from a target type, every
//! transitively required provider, dependencies first.

use vstd::prelude::*;

use crate::import::{spec_qualify, ImportMapper};
use crate::locator::FileLocator;
use crate::signature::ProviderSignature;
use crate::strutil::{has_prefix, has_sub, str_to_chars};
use crate::table::{lemma_tbl_find_props, tbl_find, tbl_has, tbl_lookup};

verus! {

/// What a blueprint file declares: the provider symbols referenced by
/// the configuration function, and each injector's configuration
/// function.
#[derive(Debug)]
pub struct Blueprint {
    pub providers: Vec<String>,
    pub injectors: Vec<(String, String)>,
}

impl Default for Blueprint {
    /// An empty blueprint.
    fn default() -> (r: Blueprint)
        ensures
            r.providers@.len() == 0,
            r.injectors@.len() == 0,
    {
        Blueprint { providers: Vec::new(), injectors: Vec::new() }
    }
}

/// The scanner: a locator for the crate being scanned, the blueprint
/// read from the entry file, the providers collected in dependency
/// order, the provider signatures keyed by qualified output type, and
/// the types on the current recursion path.
#[derive(Debug)]
pub struct Scanner {
    pub locator: FileLocator,
    pub blueprint: Blueprint,
    pub collected_providers: Vec<ProviderSignature>,
    pub provider_map: Vec<(String, ProviderSignature)>,
    pub processing: Vec<String>,
}

/// The mapped provider signatures carry pairwise-distinct names.
pub open spec fn map_names_distinct(m: Seq<(String, ProviderSignature)>) -> bool {
    forall|i: int, j: int| 0 <= i < j < m.len() ==> m[i].1@.name != m[j].1@.name
}

/// The collected providers carry pairwise-distinct names.
pub open spec fn collected_names_distinct(c: Seq<ProviderSignature>) -> bool {
    forall|i: int, j: int| 0 <= i < j < c.len() ==> c[i]@.name != c[j]@.name
}

impl Scanner {
    /// The scanner's bookkeeping invariant: map keys are unique, and the
    /// recursion path holds distinct, mapped keys.
    pub open spec fn wf(self) -> bool {
        &&& forall|i: int, j: int|
            0 <= i < j < self.provider_map@.len() ==> self.provider_map@[i].0@
                != self.provider_map@[j].0@
        &&& forall|i: int, j: int|
            0 <= i < j < self.processing@.len() ==> self.processing@[i]@
                != self.processing@[j]@
        &&& forall|i: int|
            0 <= i < self.processing@.len() ==> tbl_has(
                self.provider_map@,
                (#[trigger] self.processing@[i])@,
            )
    }

    /// A fresh scanner for the crate at `crate_root`.
    pub fn new(crate_root: String) -> (r: Scanner)
        ensures
            r.locator.crate_root@ == crate_root@,
            r.blueprint.providers@.len() == 0,
            r.blueprint.injectors@.len() == 0,
            r.collected_providers@.len() == 0,
            r.provider_map@.len() == 0,
            r.processing@.len() == 0,
            r.wf(),
    {
        Scanner {
            locator: FileLocator::new(crate_root),
            blueprint: Blueprint::default(),
            collected_providers: Vec::new(),
            provider_map: Vec::new(),
            processing: Vec::new(),
        }
    }

    /// Resolve a logical path to its file, against the given listing.
    pub fn resolve_to_file(&self, path: &str, files: &Vec<String>, dirs: &Vec<String>) -> (r:
        Option<String>)
        ensures
            match r {
                Some(f) => crate::locator::spec_resolve_to_file(
                    self.locator.crate_root@,
                    path@,
                    files.deep_view(),
                    dirs.deep_view(),
                ) == Some(f@),
                None => crate::locator::spec_resolve_to_file(
                    self.locator.crate_root@,
                    path@,
                    files.deep_view(),
                    dirs.deep_view(),
                ) is None,
            },
    {
        self.locator.resolve_to_file(path, files, dirs)
    }

    /// Record the signature providing a qualified output type; a later
    /// signature for the same type replaces the earlier one.
    pub fn add_provider(&mut self, key: String, sig: ProviderSignature)
        requires
            old(self).wf(),
        ensures
            final(self).wf(),
            final(self).locator == old(self).locator,
            final(self).blueprint == old(self).blueprint,
            final(self).collected_providers == old(self).collected_providers,
            final(self).processing == old(self).processing,
            tbl_has(final(self).provider_map@, key@),
            match tbl_find(final(self).provider_map@, key@) {
                Some(i) => final(self).provider_map@[i].1@ == sig@
                    && final(self).provider_map@[i].0@ == key@,
                None => false,
            },
            forall|k: Seq<char>|
                k != key@ ==> #[trigger] tbl_find(final(self).provider_map@, k) == tbl_find(
                    old(self).provider_map@,
                    k,
                ) && (tbl_find(old(self).provider_map@, k) matches Some(i)
                    ==> final(self).provider_map@[i] == old(self).provider_map@[i]),
    {
        let ghost m0 = self.provider_map@;
        match tbl_lookup(&self.provider_map, &key) {
            Some(i) => {
                proof {
                    lemma_tbl_find_props(m0, key@);
                }
                self.provider_map.remove(i);
                self.provider_map.insert(i, (key, sig));
                proof {
                    let m1 = self.provider_map@;
                    assert(m1 =~= m0.update(i as int, (m1[i as int].0, m1[i as int].1)));
                    assert(m1[i as int].0@ == key@);
                    assert forall|k: Seq<char>|
                        k != key@ implies (#[trigger] tbl_find(m1, k) == tbl_find(m0, k) && (
                        tbl_find(m0, k) matches Some(p) ==> m1[p] == m0[p])) by {
                        lemma_tbl_find_props(m0, k);
                        lemma_tbl_find_props(m1, k);
                        assert(forall|q: int| 0 <= q < m1.len() ==> m1[q].0@ == m0[q].0@);
                        match tbl_find(m0, k) {
                            Some(p) => {
                                assert(m1[p].0@ == k);
                                assert(m0[p].0@ == k);
                                assert(m0[i as int].0@ == key@);
                                assert(p != i as int);
                                assert(m1[p] == m0[p]);
                                match tbl_find(m1, k) {
                                    Some(q) => {
                                        if q < p {
                                            assert(m0[q].0@ != k);
                                        }
                                        if p < q {
                                            assert(m1[p].0@ != k);
                                        }
                                    },
                                    None => {},
                                }
                            },
                            None => {
                                match tbl_find(m1, k) {
                                    Some(q) => {
                                        assert(m0[q].0@ == m1[q].0@);
                                    },
                                    None => {},
                                }
                            },
                        }
                    }
                    assert(tbl_find(m1, key@) == tbl_find(m0, key@)) by {
                        lemma_tbl_find_props(m0, key@);
                        lemma_tbl_find_props(m1, key@);
                        assert(forall|q: int| 0 <= q < m1.len() ==> m1[q].0@ == m0[q].0@);
                        assert(m1[i as int].0@ == key@);
                        match tbl_find(m1, key@) {
                            Some(q) => {
                                if q < i as int {
                                    assert(m0[q].0@ != key@);
                                }
                                if (i as int) < q {
                                    assert(m1[i as int].0@ != key@);
                                }
                            },
                            None => {
                                assert(m1[i as int].0@ != key@);
                            },
                        }
                    }
                    lemma_tbl_find_props(m1, key@);
                }
            },
            None => {
                self.provider_map.push((key, sig));
                proof {
                    let m1 = self.provider_map@;
                    lemma_tbl_find_props(m0, key@);
                    assert forall|k: Seq<char>|
                        k != key@ implies (#[trigger] tbl_find(m1, k) == tbl_find(m0, k) && (
                        tbl_find(m0, k) matches Some(p) ==> m1[p] == m0[p])) by {
                        crate::table::lemma_tbl_find_push(m0, k, m1[m1.len() - 1]);
                        assert(m1 =~= m0.push(m1[m1.len() - 1]));
                        lemma_tbl_find_props(m0, k);
                    }
                    crate::table::lemma_tbl_find_push(m0, key@, m1[m1.len() - 1]);
                    assert(m1 =~= m0.push(m1[m1.len() - 1]));
                    lemma_tbl_find_props(m1, key@);
                    assert forall|i: int, j: int|
                        0 <= i < j < m1.len() implies m1[i].0@ != m1[j].0@ by {
                        if j == m1.len() - 1 {
                            lemma_tbl_find_props(m0, key@);
                            assert(m0[i].0@ != key@);
                        }
                    }
                }
            },
        }
    }

    /// Collect, dependencies first, every provider the target type
    /// transitively requires. A type with no recorded provider, a
    /// provider whose name is already collected, and a type already on
    /// the recursion path are silently skipped; the whole-set ordering
    /// pass reports cycles and restores producer-first order.
    #[verifier::loop_isolation(false)]
    pub fn resolve_dependencies(&mut self, target_type: &str)
        requires
            old(self).wf(),
        ensures
            final(self).wf(),
            final(self).locator == old(self).locator,
            final(self).blueprint == old(self).blueprint,
            final(self).provider_map == old(self).provider_map,
            final(self).processing@ == old(self).processing@,
            final(self).collected_providers@.len() >= old(self).collected_providers@.len(),
            forall|x: int|
                0 <= x < old(self).collected_providers@.len()
                    ==> final(self).collected_providers@[x]
                    == old(self).collected_providers@[x],
            forall|x: int|
                old(self).collected_providers@.len() <= x
                    < final(self).collected_providers@.len() ==> exists|i: int|
                    0 <= i < final(self).provider_map@.len()
                        && (#[trigger] final(self).collected_providers@[x])@
                        == final(self).provider_map@[i].1@,
            tbl_find(old(self).provider_map@, target_type@) is None ==> final(self).collected_providers@ == old(self).collected_providers@,
            match tbl_find(old(self).provider_map@, target_type@) {
                Some(i) => (exists|x: int|
                    0 <= x < old(self).collected_providers@.len() && (#[trigger] old(self).collected_providers@[x])@.name == old(self).provider_map@[i].1@.name)
                    ==> final(self).collected_providers@ == old(self).collected_providers@,
                None => true,
            },
            match tbl_find(old(self).provider_map@, target_type@) {
                Some(i) => (forall|p: int|
                    0 <= p < old(self).processing@.len() ==> (#[trigger] old(self).processing@[p])@ != target_type@) ==> exists|x: int|
                    0 <= x < final(self).collected_providers@.len() && (#[trigger] final(self).collected_providers@[x])@.name == old(self).provider_map@[i].1@.name,
                None => true,
            },
            (map_names_distinct(old(self).provider_map@) && collected_names_distinct(
                old(self).collected_providers@,
            )) ==> collected_names_distinct(final(self).collected_providers@),
            map_names_distinct(old(self).provider_map@) ==> forall|x: int, p: int|
                #![trigger final(self).collected_providers@[x], old(self).processing@[p]]
                old(self).collected_providers@.len() <= x < final(self).collected_providers@.len() && 0 <= p < old(self).processing@.len()
                    ==> match tbl_find(old(self).provider_map@, old(self).processing@[p]@) {
                    Some(ip) => final(self).collected_providers@[x]@.name != old(self).provider_map@[ip].1@.name,
                    None => true,
                },
        decreases old(self).provider_map@.len() - old(self).processing@.len(),
    {
        proof {
            lemma_processing_bounded(self.processing@, self.provider_map@);
        }
        let owned = target_type.to_owned();
        let found = tbl_lookup(&self.provider_map, &owned);
        let i = match found {
            Some(i) => i,
            None => {
                return ;
            },
        };
        proof {
            lemma_tbl_find_props(self.provider_map@, owned@);
        }
        let sig = self.provider_map[i].1.clone();
        let mut c: usize = 0;
        while c < self.collected_providers.len()
            invariant
                c <= self.collected_providers@.len(),
                forall|j: int|
                    0 <= j < c ==> (#[trigger] self.collected_providers@[j])@.name != sig@.name,
            decreases self.collected_providers@.len() - c,
        {
            if self.collected_providers[c].name == sig.name {
                proof {
                    assert(self.collected_providers@[c as int]@.name == sig@.name);
                }
                return ;
            }
            c = c + 1;
        }
        let mut p: usize = 0;
        while p < self.processing.len()
            invariant
                p <= self.processing@.len(),
                forall|j: int| 0 <= j < p ==> (#[trigger] self.processing@[j])@ != owned@,
            decreases self.processing@.len() - p,
        {
            if self.processing[p] == owned {
                return ;
            }
            p = p + 1;
        }
        self.processing.push(owned);
        proof {
            let proc1 = self.processing@;
            assert forall|a: int, b: int| 0 <= a < b < proc1.len() implies proc1[a]@
                != proc1[b]@ by {
                if b == proc1.len() - 1 {
                    assert(proc1[a]@ != proc1[b]@);
                }
            }
            assert(self.wf());
        }
        let ghost self1 = *self;
        proof {
            assert(self1.processing@ == old(self).processing@.push(owned));
        }
        let mut t: usize = 0;
        while t < sig.stripped_inputs.len()
            invariant
                t <= sig.stripped_inputs@.len(),
                self.wf(),
                self.locator == self1.locator,
                self.blueprint == self1.blueprint,
                self.provider_map == self1.provider_map,
                self.processing@ == self1.processing@,
                self.collected_providers@.len() >= self1.collected_providers@.len(),
                forall|x: int|
                    0 <= x < self1.collected_providers@.len()
                        ==> self.collected_providers@[x] == self1.collected_providers@[x],
                forall|x: int|
                    self1.collected_providers@.len() <= x < self.collected_providers@.len()
                        ==> exists|i2: int|
                        0 <= i2 < self.provider_map@.len() && (
                        #[trigger] self.collected_providers@[x])@
                            == self.provider_map@[i2].1@,
                (map_names_distinct(self1.provider_map@) && collected_names_distinct(
                    self1.collected_providers@,
                )) ==> collected_names_distinct(self.collected_providers@),
                map_names_distinct(self1.provider_map@) ==> forall|x: int, p: int|
                    #![trigger self.collected_providers@[x], self1.processing@[p]]
                    self1.collected_providers@.len() <= x < self.collected_providers@.len()
                        && 0 <= p < self1.processing@.len() ==> match tbl_find(
                        self1.provider_map@,
                        self1.processing@[p]@,
                    ) {
                        Some(ip) => self.collected_providers@[x]@.name
                            != self1.provider_map@[ip].1@.name,
                        None => true,
                    },
            decreases sig.stripped_inputs@.len() - t,
        {
            let input = sig.stripped_inputs[t].clone();
            proof {
                lemma_processing_bounded(self.processing@, self.provider_map@);
            }
            self.resolve_dependencies(input.as_str());
            t = t + 1;
        }
        self.processing.pop();
        proof {
            assert(self.processing@ =~= old(self).processing@);
        }
        let ghost coll0 = self.collected_providers@;
        self.collected_providers.push(sig);
        proof {
            lemma_tbl_find_props(self.provider_map@, owned@);
            assert(self.collected_providers@[self.collected_providers@.len() - 1]@
                == self.provider_map@[i as int].1@);
            assert(forall|x: int|
                0 <= x < coll0.len() ==> self.collected_providers@[x] == coll0[x]);
            assert(self.collected_providers@[self.collected_providers@.len() - 1]@.name
                == old(self).provider_map@[i as int].1@.name);
            let coll_new = self.collected_providers@;
            let m0 = old(self).provider_map@;
            let old_len = old(self).collected_providers@.len() as int;
            if map_names_distinct(m0) {
                assert forall|x: int, p: int|
                    #![trigger coll_new[x], old(self).processing@[p]]
                    old_len <= x < coll_new.len() && 0 <= p < old(self).processing@.len()
                        implies match tbl_find(m0, old(self).processing@[p]@) {
                    Some(ip) => coll_new[x]@.name != m0[ip].1@.name,
                    None => true,
                } by {
                    lemma_tbl_find_props(m0, old(self).processing@[p]@);
                    assert(self1.processing@[p] == old(self).processing@[p]);
                    match tbl_find(m0, old(self).processing@[p]@) {
                        Some(ip) => {
                            assert(m0[ip].0@ == old(self).processing@[p]@);
                            if x < coll_new.len() - 1 {
                                assert(coll0[x]@.name != m0[ip].1@.name);
                            } else {
                                assert(old(self).processing@[p]@ != owned@);
                                assert(m0[i as int].0@ == owned@);
                                assert(ip != i as int);
                                assert(m0[ip].1@.name != m0[i as int].1@.name);
                                assert(coll_new[x]@.name == m0[i as int].1@.name);
                            }
                        },
                        None => {},
                    }
                }
            }
            if map_names_distinct(m0) && collected_names_distinct(
                old(self).collected_providers@,
            ) {
                assert(collected_names_distinct(coll0));
                assert forall|x: int|
                    old_len <= x < coll0.len() implies (#[trigger] coll0[x])@.name
                    != sig@.name by {
                    assert(self1.processing@[self1.processing@.len() - 1] == owned);
                    assert(coll0[x] == self.collected_providers@[x]);
                    assert(match tbl_find(self1.provider_map@, owned@) {
                        Some(ip) => self.collected_providers@[x]@.name != self1.provider_map@[
                            ip].1@.name,
                        None => true,
                    });
                }
                assert forall|a: int, b: int|
                    0 <= a < b < coll_new.len() implies coll_new[a]@.name
                    != coll_new[b]@.name by {
                    if b < coll_new.len() - 1 {
                        assert(coll0[a]@.name != coll0[b]@.name);
                    } else {
                        assert(coll_new[b]@.name == sig@.name);
                        if a < old_len {
                            assert(old(self).collected_providers@[a]@.name != sig@.name);
                        } else {
                            assert(coll0[a]@.name != sig@.name);
                        }
                    }
                }
            }
        }
    }

    /// Collect the providers for a target type named at the entry file:
    /// the target is qualified against the entry file's imports within
    /// its module scope (`spec_qualify`), the recursion path is cleared,
    /// and the collected providers are returned. An unregistered target
    /// leaves the collection unchanged; a registered one puts its
    /// provider's name into the collection.
    pub fn run(&mut self, entry_mapper: &ImportMapper, entry_scope: &str, target_type: &str)
        -> (r: Vec<ProviderSignature>)
        requires
            old(self).wf(),
        ensures
            final(self).wf(),
            r@.len() == final(self).collected_providers@.len(),
            forall|y: int|
                0 <= y < r@.len() ==> (#[trigger] r@[y])@
                    == final(self).collected_providers@[y]@,
            final(self).provider_map == old(self).provider_map,
            final(self).processing@.len() == 0,
            forall|x: int|
                0 <= x < old(self).collected_providers@.len()
                    ==> final(self).collected_providers@[x]
                    == old(self).collected_providers@[x],
            tbl_find(
                old(self).provider_map@,
                spec_qualify(entry_mapper.symbol_map@, entry_scope@, target_type@),
            ) is None ==> final(self).collected_providers@ == old(self).collected_providers@,
            match tbl_find(
                old(self).provider_map@,
                spec_qualify(entry_mapper.symbol_map@, entry_scope@, target_type@),
            ) {
                Some(i) => exists|x: int|
                    0 <= x < final(self).collected_providers@.len() && (#[trigger] final(self).collected_providers@[x])@.name == old(self).provider_map@[i].1@.name,
                None => true,
            },
            (map_names_distinct(old(self).provider_map@) && collected_names_distinct(
                old(self).collected_providers@,
            )) ==> collected_names_distinct(final(self).collected_providers@),
    {
        let target_chars = str_to_chars(target_type);
        let sep = str_to_chars("::");
        let crate_lit = str_to_chars("crate");
        let normalized_target: String = if has_sub(&target_chars, &sep) && has_prefix(
            &target_chars,
            &crate_lit,
        ) {
            target_type.to_owned()
        } else {
            entry_mapper.qualify_type(entry_scope, target_type)
        };
        proof {
            assert(normalized_target@ == spec_qualify(
                entry_mapper.symbol_map@,
                entry_scope@,
                target_type@,
            ));
        }
        self.processing.clear();
        proof {
            assert(self.wf());
        }
        self.resolve_dependencies(normalized_target.as_str());
        let mut r: Vec<ProviderSignature> = Vec::new();
        let mut x: usize = 0;
        while x < self.collected_providers.len()
            invariant
                x <= self.collected_providers@.len(),
                r@.len() == x,
                forall|y: int|
                    0 <= y < x ==> (#[trigger] r@[y])@ == self.collected_providers@[y]@,
            decreases self.collected_providers@.len() - x,
        {
            let elem = self.collected_providers[x].clone();
            r.push(elem);
            x = x + 1;
        }
        r
    }
}

/// A path of distinct keys drawn from a unique-keyed table is no longer
/// than the table.
proof fn lemma_processing_bounded(proc: Seq<String>, m: Seq<(String, ProviderSignature)>)
    requires
        forall|i: int, j: int| 0 <= i < j < proc.len() ==> proc[i]@ != proc[j]@,
        forall|i: int| 0 <= i < proc.len() ==> tbl_has(m, (#[trigger] proc[i])@),
    ensures
        proc.len() <= m.len(),
{
    let pos = Seq::new(proc.len(), |x: int| pos_of_key(m, proc[x]@));
    assert forall|x: int| 0 <= x < pos.len() implies 0 <= #[trigger] pos[x] < m.len() by {
        lemma_tbl_find_props(m, proc[x]@);
    }
    assert forall|x: int, y: int| 0 <= x < y < pos.len() implies pos[x] != pos[y] by {
        lemma_tbl_find_props(m, proc[x]@);
        lemma_tbl_find_props(m, proc[y]@);
        if pos[x] == pos[y] {
            assert(m[pos[x]].0@ == proc[x]@);
            assert(m[pos[y]].0@ == proc[y]@);
        }
    }
    lemma_distinct_int_bounded(pos, m.len() as nat);
}

/// The index of the first table entry with key `k` (zero if absent).
pub open spec fn pos_of_key(m: Seq<(String, ProviderSignature)>, k: Seq<char>) -> int {
    match tbl_find(m, k) {
        Some(i) => i,
        None => 0,
    }
}

/// A sequence of distinct integers inside `[0, n)` has at most `n`
/// elements.
proof fn lemma_distinct_int_bounded(s: Seq<int>, n: nat)
    requires
        forall|x: int| 0 <= x < s.len() ==> 0 <= #[trigger] s[x] < n,
        forall|x: int, y: int| 0 <= x < y < s.len() ==> s[x] != s[y],
    ensures
        s.len() <= n,
{
    assert(s.no_duplicates());
    s.unique_seq_to_set();
    assert(s.to_set().subset_of(vstd::set_lib::set_int_range(0, n as int))) by {
        assert forall|e: int| s.to_set().contains(e) implies vstd::set_lib::set_int_range(
            0,
            n as int,
        ).contains(e) by {
            let x = choose|x: int| 0 <= x < s.len() && s[x] == e;
        }
    }
    vstd::set_lib::lemma_int_range(0, n as int);
    vstd::set_lib::lemma_len_subset(s.to_set(), vstd::set_lib::set_int_range(0, n as int));
}

} // verus!
