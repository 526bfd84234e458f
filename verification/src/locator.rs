//! Mapping between logical module paths and source file paths.
//!
//! The locator decides, from a listing of the files and directories under
//! a crate root, which file holds a logical `crate::...` path, and maps a
//! file path back to its logical module path. File-system access stays
//! with the caller: the locator only receives the listing.

use vstd::prelude::*;

use crate::keys::{lemma_find_from_props, spec_find};
use crate::strutil::{
    chars_to_string, ends_with, push_all, spec_replace, starts_with, str_to_chars, sub_vec,
};

verus! {

/// The segments of `s` separated by `"::"`.
pub open spec fn split_modsep(s: Seq<char>) -> Seq<Seq<char>>
    decreases s.len(),
    via split_modsep_decreases
{
    match spec_find(s, seq![':', ':']) {
        Some(p) => seq![s.take(p)] + split_modsep(s.skip(p + 2)),
        None => seq![s],
    }
}

#[via_fn]
proof fn split_modsep_decreases(s: Seq<char>) {
    lemma_find_from_props(s, seq![':', ':'], 0);
}

/// The segments of `s` separated by `'/'`.
pub open spec fn split_slash(s: Seq<char>) -> Seq<Seq<char>>
    decreases s.len(),
    via split_slash_decreases
{
    match spec_find(s, seq!['/']) {
        Some(p) => seq![s.take(p)] + split_slash(s.skip(p + 1)),
        None => seq![s],
    }
}

#[via_fn]
proof fn split_slash_decreases(s: Seq<char>) {
    lemma_find_from_props(s, seq!['/'], 0);
}

/// Split a string at every occurrence of a nonempty separator.
#[verifier::loop_isolation(false)]
fn split_exec(s: &Vec<char>, sep: &Vec<char>, Ghost(is_slash): Ghost<bool>) -> (r: Vec<String>)
    requires
        is_slash ==> sep@ == seq!['/'],
        !is_slash ==> sep@ == seq![':', ':'],
    ensures
        is_slash ==> r.deep_view() == split_slash(s@),
        !is_slash ==> r.deep_view() == split_modsep(s@),
{
    let mut r: Vec<String> = Vec::new();
    let mut cur = sub_vec(s, 0, s.len());
    proof {
        assert(cur@ =~= s@);
    }
    loop
        invariant
            is_slash ==> sep@ == seq!['/'],
            !is_slash ==> sep@ == seq![':', ':'],
            is_slash ==> split_slash(s@) == r.deep_view() + split_slash(cur@),
            !is_slash ==> split_modsep(s@) == r.deep_view() + split_modsep(cur@),
        decreases cur@.len(),
    {
        match crate::keys::find_first(&cur, sep) {
            Some(p) => {
                proof {
                    lemma_find_from_props(cur@, sep@, 0);
                }
                let ghost r0 = r.deep_view();
                let n = cur.len();
                let head = sub_vec(&cur, 0, p);
                r.push(chars_to_string(&head));
                let next = sub_vec(&cur, p + sep.len(), n);
                proof {
                    assert(r.deep_view() =~= r0.push(cur@.take(p as int)));
                    if is_slash {
                        assert(r0 + split_slash(cur@) =~= r.deep_view() + split_slash(next@));
                    } else {
                        assert(r0 + split_modsep(cur@) =~= r.deep_view() + split_modsep(next@));
                    }
                }
                cur = next;
            },
            None => {
                let ghost r0 = r.deep_view();
                r.push(chars_to_string(&cur));
                proof {
                    assert(r.deep_view() =~= r0.push(cur@));
                    if is_slash {
                        assert(r.deep_view() =~= r0 + split_slash(cur@));
                    } else {
                        assert(r.deep_view() =~= r0 + split_modsep(cur@));
                    }
                }
                return r;
            },
        }
    }
}

/// Does the string list hold this exact entry?
#[verifier::loop_isolation(false)]
fn list_has(v: &Vec<String>, x: &String) -> (r: bool)
    ensures
        r == v.deep_view().contains(x@),
{
    let mut i: usize = 0;
    while i < v.len()
        invariant
            i <= v@.len(),
            forall|j: int| 0 <= j < i ==> v.deep_view()[j] != x@,
        decreases v.len() - i,
    {
        if v[i] == *x {
            proof {
                assert(v.deep_view()[i as int] == x@);
            }
            return true;
        }
        i = i + 1;
    }
    proof {
        if v.deep_view().contains(x@) {
            let j = choose|j: int| 0 <= j < v.deep_view().len() && v.deep_view()[j] == x@;
        }
    }
    false
}

/// The fallback when no part of the logical path names a file: the crate
/// root file, library first.
pub open spec fn root_fallback(root: Seq<char>, files: Seq<Seq<char>>) -> Option<Seq<char>> {
    if files.contains(root + "/src/lib.rs"@) {
        Some(root + "/src/lib.rs"@)
    } else if files.contains(root + "/src/main.rs"@) {
        Some(root + "/src/main.rs"@)
    } else {
        None
    }
}

/// The greedy walk along the logical path parts: a `part.rs` file wins
/// immediately; a `part/mod.rs` file wins when last, else descends; a
/// bare directory descends; anything else moves to the next part.
pub open spec fn walk_parts(
    parts: Seq<Seq<char>>,
    i: int,
    current: Seq<char>,
    files: Seq<Seq<char>>,
    dirs: Seq<Seq<char>>,
    root: Seq<char>,
) -> Option<Seq<char>>
    decreases parts.len() - i,
    when 0 <= i
{
    if i >= parts.len() {
        root_fallback(root, files)
    } else {
        let fp = current + seq!['/'] + parts[i] + ".rs"@;
        let sub = current + seq!['/'] + parts[i];
        if files.contains(fp) {
            Some(fp)
        } else if files.contains(sub + "/mod.rs"@) {
            if i == parts.len() - 1 {
                Some(sub + "/mod.rs"@)
            } else {
                walk_parts(parts, i + 1, sub, files, dirs, root)
            }
        } else if dirs.contains(sub) {
            walk_parts(parts, i + 1, sub, files, dirs, root)
        } else {
            walk_parts(parts, i + 1, current, files, dirs, root)
        }
    }
}

/// What resolving a logical path against a file listing returns.
pub open spec fn spec_resolve_to_file(
    root: Seq<char>,
    logical: Seq<char>,
    files: Seq<Seq<char>>,
    dirs: Seq<Seq<char>>,
) -> Option<Seq<char>> {
    let parts = split_modsep(logical);
    if parts.len() == 0 || parts[0] != "crate"@ {
        None
    } else {
        walk_parts(parts, 1, root + "/src"@, files, dirs, root)
    }
}

/// Drop every trailing `".rs"` of `s`.
pub open spec fn drop_rs_suffix(s: Seq<char>) -> Seq<char>
    decreases s.len(),
{
    if ends_with(s, ".rs"@) && s.len() >= 3 {
        drop_rs_suffix(s.take(s.len() - 3))
    } else {
        s
    }
}

/// The logical module path of the components of a file path relative to
/// the source root.
pub open spec fn logical_of_components(comps: Seq<Seq<char>>) -> Seq<char>
    decreases comps.len(),
{
    if comps.len() == 0 {
        "crate"@
    } else {
        logical_of_components(comps.drop_last()) + "::"@ + comps.last()
    }
}

/// The component list of a relative file path, with the final component
/// reduced: a module file folder marker is dropped, a source extension
/// is trimmed, and a crate root file disappears.
pub open spec fn reduce_components(comps: Seq<Seq<char>>) -> Seq<Seq<char>> {
    if comps.len() == 0 {
        comps
    } else if comps.last() == "mod.rs"@ {
        comps.drop_last()
    } else if ends_with(comps.last(), ".rs"@) {
        let trimmed = drop_rs_suffix(comps.last());
        if trimmed == "lib"@ || trimmed == "main"@ {
            comps.drop_last()
        } else {
            comps.update(comps.len() - 1, trimmed)
        }
    } else {
        comps
    }
}

/// Last occurrence of the character `c` in `s`.
pub open spec fn spec_rfind(s: Seq<char>, c: char) -> Option<int>
    decreases s.len(),
{
    if s.len() == 0 {
        None
    } else if s.last() == c {
        Some(s.len() - 1)
    } else {
        spec_rfind(s.drop_last(), c)
    }
}

/// `spec_rfind` finds exactly the last occurrence.
pub proof fn lemma_rfind_props(s: Seq<char>, c: char)
    ensures
        match spec_rfind(s, c) {
            Some(p) => 0 <= p < s.len() && s[p] == c && forall|j: int|
                p < j < s.len() ==> s[j] != c,
            None => forall|j: int| 0 <= j < s.len() ==> s[j] != c,
        },
    decreases s.len(),
{
    if s.len() > 0 && s.last() != c {
        lemma_rfind_props(s.drop_last(), c);
        assert(forall|j: int| 0 <= j < s.len() - 1 ==> s[j] == s.drop_last()[j]);
    }
}

/// Find the last occurrence of `c` in `s`, as `spec_rfind` defines it.
#[verifier::loop_isolation(false)]
fn rfind_char(s: &Vec<char>, c: char) -> (r: Option<usize>)
    ensures
        match r {
            Some(p) => spec_rfind(s@, c) == Some(p as int),
            None => spec_rfind(s@, c) is None,
        },
{
    let mut i: usize = s.len();
    while i > 0
        invariant
            i <= s@.len(),
            forall|j: int| i <= j < s@.len() ==> s@[j] != c,
        decreases i,
    {
        if s[i - 1] == c {
            proof {
                lemma_rfind_props(s@, c);
                match spec_rfind(s@, c) {
                    Some(p) => {
                        if p < i - 1 {
                            assert(s@[i - 1] != c);
                        }
                        if p > i - 1 {
                            assert(s@[p] != c);
                        }
                    },
                    None => {
                        assert(s@[i - 1] != c);
                    },
                }
            }
            return Some(i - 1);
        }
        i = i - 1;
    }
    proof {
        lemma_rfind_props(s@, c);
    }
    None
}

/// The final component's extension removed: everything from the last
/// dot is dropped when that dot lies inside the final path component
/// and not at its start.
pub open spec fn drop_path_extension(s: Seq<char>) -> Seq<char> {
    match spec_rfind(s, '.') {
        None => s,
        Some(d) => {
            let inside_last = match spec_rfind(s, '/') {
                None => d > 0,
                Some(sl) => d > sl + 1,
            };
            if inside_last {
                s.take(d)
            } else {
                s
            }
        },
    }
}

/// The logical module path of a source file under the source directory:
/// the relative path with its extension removed and its separators
/// folded into `::`.
pub open spec fn spec_path_to_module_path(path: Seq<char>, src_dir: Seq<char>) -> Seq<char> {
    let rel0 = path.skip(src_dir.len() as int);
    let rel = if rel0.len() > 0 && rel0[0] == '/' {
        rel0.skip(1)
    } else {
        rel0
    };
    spec_replace(
        spec_replace(drop_path_extension(rel), seq!['/'], "::"@),
        seq!['\\'],
        "::"@,
    )
}

/// Turn a file path under the source directory into its module path:
/// the relative path, extension dropped, separators folded into `::`.
pub fn path_to_module_path(path: &str, src_dir: &str) -> (r: String)
    requires
        starts_with(path@, src_dir@),
    ensures
        r@ == spec_path_to_module_path(path@, src_dir@),
{
    let p = str_to_chars(path);
    let d = str_to_chars(src_dir);
    let rel0 = sub_vec(&p, d.len(), p.len());
    proof {
        assert(rel0@ =~= p@.skip(d@.len() as int));
    }
    let rel = if rel0.len() > 0 && rel0[0] == '/' {
        let t = sub_vec(&rel0, 1, rel0.len());
        proof {
            assert(t@ =~= rel0@.skip(1));
        }
        t
    } else {
        rel0
    };
    let ghost relg = rel@;
    let rl = rel.len();
    let dot = rfind_char(&rel, '.');
    let slash = rfind_char(&rel, '/');
    proof {
        lemma_rfind_props(relg, '.');
        lemma_rfind_props(relg, '/');
    }
    let cut = match dot {
        Some(dd) => {
            let inside_last = match slash {
                None => dd > 0,
                Some(sl) => dd > sl + 1,
            };
            if inside_last {
                proof {
                    lemma_rfind_props(relg, '.');
                }
                sub_vec(&rel, 0, dd)
            } else {
                rel
            }
        },
        None => rel,
    };
    proof {
        assert(cut@ == drop_path_extension(relg));
    }
    let sep = str_to_chars("::");
    let slash_pat: Vec<char> = vec!['/'];
    let back_pat: Vec<char> = vec!['\\'];
    proof {
        assert(slash_pat@ =~= seq!['/']);
        assert(back_pat@ =~= seq!['\\']);
    }
    let folded = crate::strutil::replace_sub(&cut, &slash_pat, &sep);
    let folded = crate::strutil::replace_sub(&folded, &back_pat, &sep);
    chars_to_string(&folded)
}

/// What mapping a file path back to a logical path returns: the file
/// must lie under (or be) the source root.
pub open spec fn spec_file_to_logical(root: Seq<char>, file: Seq<char>) -> Option<Seq<char>> {
    let src_root = root + "/src"@;
    if file == src_root {
        Some(logical_of_components(Seq::empty()))
    } else if !starts_with(file, src_root + seq!['/']) {
        None
    } else {
        let rel = file.skip(src_root.len() + 1int);
        let comps = if rel.len() == 0 {
            Seq::<Seq<char>>::empty()
        } else {
            split_slash(rel)
        };
        Some(logical_of_components(reduce_components(comps)))
    }
}

/// Locates source files for logical paths under one crate root,
/// against a caller-supplied listing of existing files and directories.
#[derive(Debug)]
pub struct FileLocator {
    pub crate_root: String,
}

impl FileLocator {
    /// A locator for the crate at `crate_root`.
    pub fn new(crate_root: String) -> (r: FileLocator)
        ensures
            r.crate_root@ == crate_root@,
    {
        FileLocator { crate_root }
    }

    /// Resolve a logical `crate::...` path to the file that holds it,
    /// against the given listing of existing files and directories.
    #[verifier::loop_isolation(false)]
    pub fn resolve_to_file(&self, logical_path: &str, files: &Vec<String>, dirs: &Vec<String>)
        -> (r: Option<String>)
        ensures
            match r {
                Some(f) => spec_resolve_to_file(
                    self.crate_root@,
                    logical_path@,
                    files.deep_view(),
                    dirs.deep_view(),
                ) == Some(f@),
                None => spec_resolve_to_file(
                    self.crate_root@,
                    logical_path@,
                    files.deep_view(),
                    dirs.deep_view(),
                ) is None,
            },
    {
        let logical = str_to_chars(logical_path);
        let sep: Vec<char> = vec![':', ':'];
        proof {
            assert(sep@ =~= seq![':', ':']);
        }
        let parts = split_exec(&logical, &sep, Ghost(false));
        let crate_lit = String::from_str("crate");
        if parts.len() == 0 || !(parts[0] == crate_lit) {
            proof {
                if parts@.len() > 0 {
                    assert(parts.deep_view()[0] == parts@[0]@);
                }
            }
            return None;
        }
        proof {
            assert(parts.deep_view()[0] == "crate"@);
        }
        let root = str_to_chars(self.crate_root.as_str());
        let mut current = sub_vec(&root, 0, root.len());
        crate::strutil::push_all(&mut current, &str_to_chars("/src"));
        proof {
            assert(current@ =~= self.crate_root@ + "/src"@);
        }
        let mut i: usize = 1;
        while i < parts.len()
            invariant
                1 <= i <= parts@.len(),
                parts@.len() >= 1,
                root@ == self.crate_root@,
                walk_parts(
                    parts.deep_view(),
                    1,
                    self.crate_root@ + "/src"@,
                    files.deep_view(),
                    dirs.deep_view(),
                    self.crate_root@,
                ) == walk_parts(
                    parts.deep_view(),
                    i as int,
                    current@,
                    files.deep_view(),
                    dirs.deep_view(),
                    self.crate_root@,
                ),
            decreases parts.len() - i,
        {
            let part = str_to_chars(parts[i].as_str());
            proof {
                assert(part@ == parts.deep_view()[i as int]);
            }
            let mut sub = sub_vec(&current, 0, current.len());
            sub.push('/');
            push_all(&mut sub, &part);
            let mut fp = sub_vec(&sub, 0, sub.len());
            push_all(&mut fp, &str_to_chars(".rs"));
            proof {
                assert(sub@ =~= current@ + seq!['/'] + part@);
                assert(fp@ =~= current@ + seq!['/'] + part@ + ".rs"@);
            }
            let fp_s = chars_to_string(&fp);
            if list_has(files, &fp_s) {
                return Some(fp_s);
            }
            let mut mp = sub_vec(&sub, 0, sub.len());
            push_all(&mut mp, &str_to_chars("/mod.rs"));
            proof {
                assert(mp@ =~= sub@ + "/mod.rs"@);
            }
            let mp_s = chars_to_string(&mp);
            if list_has(files, &mp_s) {
                if i == parts.len() - 1 {
                    return Some(mp_s);
                }
                current = sub;
            } else {
                let sub_s = chars_to_string(&sub);
                if list_has(dirs, &sub_s) {
                    current = sub;
                }
            }
            i = i + 1;
        }
        let mut lib = sub_vec(&root, 0, root.len());
        push_all(&mut lib, &str_to_chars("/src/lib.rs"));
        proof {
            assert(lib@ =~= self.crate_root@ + "/src/lib.rs"@);
        }
        let lib_s = chars_to_string(&lib);
        if list_has(files, &lib_s) {
            return Some(lib_s);
        }
        let mut main = sub_vec(&root, 0, root.len());
        push_all(&mut main, &str_to_chars("/src/main.rs"));
        proof {
            assert(main@ =~= self.crate_root@ + "/src/main.rs"@);
        }
        let main_s = chars_to_string(&main);
        if list_has(files, &main_s) {
            return Some(main_s);
        }
        None
    }

    /// Map a file path under the source root back to its logical
    /// `crate::...` path.
    #[verifier::loop_isolation(false)]
    pub fn file_to_logical(&self, file_path: &String) -> (r: Option<String>)
        ensures
            match r {
                Some(l) => spec_file_to_logical(self.crate_root@, file_path@) == Some(l@),
                None => spec_file_to_logical(self.crate_root@, file_path@) is None,
            },
    {
        let file = str_to_chars(file_path.as_str());
        let root = str_to_chars(self.crate_root.as_str());
        let mut src_root = sub_vec(&root, 0, root.len());
        push_all(&mut src_root, &str_to_chars("/src"));
        proof {
            assert(src_root@ =~= self.crate_root@ + "/src"@);
        }
        if crate::strutil::chars_eq(&file, &src_root) {
            return Some(String::from_str("crate"));
        }
        let mut prefix = src_root;
        prefix.push('/');
        proof {
            assert(prefix@ =~= self.crate_root@ + "/src"@ + seq!['/']);
        }
        if !crate::strutil::has_prefix(&file, &prefix) {
            return None;
        }
        let rel = sub_vec(&file, prefix.len(), file.len());
        proof {
            assert(rel@ =~= file@.skip(self.crate_root@.len() + "/src"@.len() + 1int));
        }
        let mut comps: Vec<String> = if rel.len() == 0 {
            Vec::new()
        } else {
            let sep: Vec<char> = vec!['/'];
            proof {
                assert(sep@ =~= seq!['/']);
            }
            split_exec(&rel, &sep, Ghost(true))
        };
        proof {
            if rel@.len() == 0 {
                assert(comps.deep_view() =~= Seq::<Seq<char>>::empty());
            }
        }
        let ghost comps0 = comps.deep_view();
        if comps.len() > 0 {
            let last_idx = comps.len() - 1;
            let modrs = String::from_str("mod.rs");
            if comps[last_idx] == modrs {
                proof {
                    assert(comps0.last() == "mod.rs"@);
                }
                comps.pop();
                proof {
                    assert(comps.deep_view() =~= comps0.drop_last());
                    assert(comps.deep_view() == reduce_components(comps0));
                }
            } else {
                let last_chars = str_to_chars(comps[last_idx].as_str());
                let rs = str_to_chars(".rs");
                if crate::strutil::has_suffix(&last_chars, &rs) {
                    let mut t = sub_vec(&last_chars, 0, last_chars.len());
                    proof {
                        assert(last_chars@ == comps0.last());
                        assert(t@ =~= last_chars@);
                    }
                    loop
                        invariant
                            drop_rs_suffix(comps0.last()) == drop_rs_suffix(t@),
                        decreases t@.len(),
                    {
                        let rs2 = str_to_chars(".rs");
                        if t.len() >= 3 && crate::strutil::has_suffix(&t, &rs2) {
                            let nt = sub_vec(&t, 0, t.len() - 3);
                            proof {
                                assert(nt@ =~= t@.take(t@.len() - 3));
                            }
                            t = nt;
                        } else {
                            proof {
                                reveal_strlit(".rs");
                                if ends_with(t@, ".rs"@) {
                                    assert(t@.len() >= 3);
                                }
                            }
                            break;
                        }
                    }
                    proof {
                        assert(drop_rs_suffix(comps0.last()) == t@);
                    }
                    let lib_lit = String::from_str("lib");
                    let main_lit = String::from_str("main");
                    let t_s = chars_to_string(&t);
                    if t_s == lib_lit || t_s == main_lit {
                        comps.pop();
                        proof {
                            assert(comps.deep_view() =~= comps0.drop_last());
                            assert(comps.deep_view() == reduce_components(comps0));
                        }
                    } else {
                        comps.pop();
                        comps.push(t_s);
                        proof {
                            assert(comps.deep_view() =~= comps0.update(
                                comps0.len() - 1,
                                drop_rs_suffix(comps0.last()),
                            ));
                            assert(comps.deep_view() == reduce_components(comps0));
                        }
                    }
                } else {
                    proof {
                        assert(comps.deep_view() == reduce_components(comps0));
                    }
                }
            }
        } else {
            proof {
                assert(comps.deep_view() =~= reduce_components(comps0));
            }
        }
        let reduced = comps;
        let mut out = str_to_chars("crate");
        proof {
            assert(out@ == logical_of_components(reduced.deep_view().take(0)));
            assert(reduced.deep_view().take(0) =~= Seq::<Seq<char>>::empty());
        }
        let mut k: usize = 0;
        while k < reduced.len()
            invariant
                k <= reduced@.len(),
                out@ == logical_of_components(reduced.deep_view().take(k as int)),
            decreases reduced.len() - k,
        {
            push_all(&mut out, &str_to_chars("::"));
            let seg = str_to_chars(reduced[k].as_str());
            push_all(&mut out, &seg);
            proof {
                assert(reduced.deep_view().take(k + 1).drop_last() =~= reduced.deep_view().take(
                    k as int,
                ));
                assert(reduced.deep_view().take(k + 1).last() == reduced.deep_view()[k as int]);
            }
            k = k + 1;
        }
        proof {
            assert(reduced.deep_view().take(reduced@.len() as int) =~= reduced.deep_view());
        }
        Some(chars_to_string(&out))
    }
}

} // verus!
