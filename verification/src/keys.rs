//! Type-key normalization.
//!
//! A raw type expression is canonicalized into a comparable key: lifetime
//! annotations (each quote together with the name after it), whitespace and
//! reference sigils are removed; ownership wrappers named in the configured
//! wrapper list are stripped repeatedly while they enclose the whole
//! remaining expression; generic, tuple and namespace punctuation is folded
//! into single separators; ASCII letters are lowercased; a leading
//! dynamic-dispatch marker is dropped. Malformed generic syntax is not
//! rejected: normalization degrades to best-effort folding.

use vstd::prelude::*;

use crate::strutil::{
    chars_to_string, contains_sub, ends_with, find_sub, has_suffix, is_sub_at, push_all,
    spec_replace, replace_sub, starts_with, str_to_chars, sub_at, chars_eq,
};

verus! {

/// True when `full` equals `suffix`, or ends with `'_'` followed by
/// `suffix`. This is the fuzzy key match applied when an exact type-key
/// lookup fails; it tolerates granularity mismatches between fully
/// qualified keys and shorthand keys.
pub open spec fn spec_is_match(full: Seq<char>, suffix: Seq<char>) -> bool {
    full == suffix || ends_with(full, seq!['_'] + suffix)
}

/// Fuzzy key comparison: equality, or `full` ending in `"_" + suffix`.
pub fn is_match(full: &str, suffix: &str) -> (r: bool)
    ensures
        r == spec_is_match(full@, suffix@),
{
    let f = str_to_chars(full);
    let s = str_to_chars(suffix);
    if chars_eq(&f, &s) {
        return true;
    }
    let mut pat: Vec<char> = vec!['_'];
    push_all(&mut pat, &s);
    proof {
        assert(pat@ =~= seq!['_'] + s@);
    }
    has_suffix(&f, &pat)
}

/// First occurrence of `pat` in `s` at an index no smaller than `i`.
pub open spec fn spec_find_from(s: Seq<char>, pat: Seq<char>, i: int) -> Option<int>
    decreases s.len() - i,
    when 0 <= i
{
    if i + pat.len() > s.len() {
        None
    } else if pat.len() == 0 || sub_at(s, pat, i) {
        Some(i)
    } else {
        spec_find_from(s, pat, i + 1)
    }
}

/// First occurrence of `pat` in `s`, if any.
pub open spec fn spec_find(s: Seq<char>, pat: Seq<char>) -> Option<int> {
    spec_find_from(s, pat, 0)
}

/// `spec_find_from` finds exactly the first occurrence at or after `i`.
pub proof fn lemma_find_from_props(s: Seq<char>, pat: Seq<char>, i: int)
    requires
        0 <= i,
    ensures
        match spec_find_from(s, pat, i) {
            Some(p) => i <= p && sub_at(s, pat, p) && forall|j: int|
                i <= j < p ==> !sub_at(s, pat, j),
            None => forall|j: int| i <= j ==> !sub_at(s, pat, j),
        },
    decreases s.len() - i,
{
    if i + pat.len() > s.len() {
        assert(forall|j: int| i <= j ==> !sub_at(s, pat, j));
    } else if pat.len() == 0 {
        assert(s.subrange(i, i) =~= pat);
        assert(sub_at(s, pat, i));
    } else if sub_at(s, pat, i) {
    } else {
        lemma_find_from_props(s, pat, i + 1);
    }
}

/// The characterization returned by [`find_sub`] determines the value of
/// [`spec_find`].
pub proof fn lemma_find_characterization(s: Seq<char>, pat: Seq<char>, r: Option<int>)
    requires
        match r {
            Some(p) => 0 <= p && sub_at(s, pat, p) && forall|j: int|
                0 <= j < p ==> !sub_at(s, pat, j),
            None => !contains_sub(s, pat),
        },
    ensures
        spec_find(s, pat) == r,
{
    lemma_find_from_props(s, pat, 0);
    match r {
        Some(p) => {
            match spec_find(s, pat) {
                Some(q) => {
                    if p < q {
                        assert(!sub_at(s, pat, p));
                    }
                    if q < p {
                        assert(!sub_at(s, pat, q));
                    }
                },
                None => {
                    assert(!sub_at(s, pat, p));
                },
            }
        },
        None => {
            match spec_find(s, pat) {
                Some(q) => {
                    assert(contains_sub(s, pat));
                },
                None => {},
            }
        },
    }
}

/// Find the first occurrence of `pat` in `s`, as `spec_find` defines it.
pub fn find_first(s: &Vec<char>, pat: &Vec<char>) -> (r: Option<usize>)
    ensures
        match r {
            Some(p) => spec_find(s@, pat@) == Some(p as int),
            None => spec_find(s@, pat@) is None,
        },
{
    let r = find_sub(s, pat);
    proof {
        match r {
            Some(p) => lemma_find_characterization(s@, pat@, Some(p as int)),
            None => lemma_find_characterization(s@, pat@, None),
        }
    }
    r
}

/// The result of stripping one outermost ownership wrapper `w` from `s`,
/// when the first occurrence of `w` followed by `'<'` either opens the
/// whole expression or directly follows a namespace separator, and the
/// expression closes with `'>'`.
pub open spec fn try_strip_one(s: Seq<char>, w: Seq<char>) -> Option<Seq<char>> {
    let pat = w + seq!['<'];
    match spec_find(s, pat) {
        None => None,
        Some(pos) => {
            if s.len() > 0 && s.last() == '>' && (pos == 0 || ends_with(
                s.take(pos),
                seq![':', ':'],
            )) {
                Some(s.subrange(pos + pat.len(), s.len() - 1))
            } else {
                None
            }
        },
    }
}

/// The first wrapper in `ws` (in list order) that strips from `s`, applied.
pub open spec fn try_strip_list(s: Seq<char>, ws: Seq<Seq<char>>) -> Option<Seq<char>>
    decreases ws.len(),
{
    if ws.len() == 0 {
        None
    } else {
        match try_strip_one(s, ws[0]) {
            Some(t) => Some(t),
            None => try_strip_list(s, ws.drop_first()),
        }
    }
}

/// A successful strip shortens the expression.
pub proof fn lemma_strip_one_shrinks(s: Seq<char>, w: Seq<char>)
    ensures
        match try_strip_one(s, w) {
            Some(t) => t.len() < s.len(),
            None => true,
        },
{
    let pat = w + seq!['<'];
    lemma_find_from_props(s, pat, 0);
    match spec_find(s, pat) {
        Some(pos) => {
            if s.len() > 0 && s.last() == '>' && (pos == 0 || ends_with(
                s.take(pos),
                seq![':', ':'],
            )) {
                assert(sub_at(s, pat, pos));
                if pos + pat.len() == s.len() {
                    assert(s.subrange(pos, pos + pat.len() as int)[pat.len() - 1] == '<');
                    assert(s[s.len() - 1] == '<');
                }
                assert(pos + pat.len() < s.len());
            }
        },
        None => {},
    }
}

/// A successful strip by any wrapper in the list shortens the expression.
pub proof fn lemma_strip_list_shrinks(s: Seq<char>, ws: Seq<Seq<char>>)
    ensures
        match try_strip_list(s, ws) {
            Some(t) => t.len() < s.len(),
            None => true,
        },
    decreases ws.len(),
{
    if ws.len() > 0 {
        lemma_strip_one_shrinks(s, ws[0]);
        match try_strip_one(s, ws[0]) {
            Some(_) => {},
            None => {
                lemma_strip_list_shrinks(s, ws.drop_first());
            },
        }
    }
}

/// Repeatedly strip an outermost ownership wrapper until none applies.
pub open spec fn strip_wrappers(s: Seq<char>, ws: Seq<Seq<char>>) -> Seq<char>
    decreases s.len(),
    via strip_wrappers_decreases
{
    match try_strip_list(s, ws) {
        Some(t) => strip_wrappers(t, ws),
        None => s,
    }
}

#[via_fn]
proof fn strip_wrappers_decreases(s: Seq<char>, ws: Seq<Seq<char>>) {
    lemma_strip_list_shrinks(s, ws);
}

/// Lowercasing of one ASCII letter; any other character is unchanged.
pub open spec fn spec_lower_char(c: char) -> char {
    if 'A' <= c && c <= 'Z' {
        ((c as u32) + 32) as char
    } else {
        c
    }
}

/// ASCII lowercasing of a whole sequence.
pub open spec fn spec_lower(s: Seq<char>) -> Seq<char> {
    Seq::new(s.len(), |i: int| spec_lower_char(s[i]))
}

/// Lowercase one ASCII letter.
pub fn lower_char(c: char) -> (r: char)
    ensures
        r == spec_lower_char(c),
{
    match c {
        'A' => 'a',
        'B' => 'b',
        'C' => 'c',
        'D' => 'd',
        'E' => 'e',
        'F' => 'f',
        'G' => 'g',
        'H' => 'h',
        'I' => 'i',
        'J' => 'j',
        'K' => 'k',
        'L' => 'l',
        'M' => 'm',
        'N' => 'n',
        'O' => 'o',
        'P' => 'p',
        'Q' => 'q',
        'R' => 'r',
        'S' => 's',
        'T' => 't',
        'U' => 'u',
        'V' => 'v',
        'W' => 'w',
        'X' => 'x',
        'Y' => 'y',
        'Z' => 'z',
        _ => c,
    }
}

/// Lowercase the ASCII letters of `s`.
#[verifier::loop_isolation(false)]
pub fn lower_chars(s: &Vec<char>) -> (r: Vec<char>)
    ensures
        r@ == spec_lower(s@),
{
    let mut r: Vec<char> = Vec::new();
    let mut i: usize = 0;
    while i < s.len()
        invariant
            i <= s@.len(),
            r@.len() == i,
            forall|j: int| 0 <= j < i ==> r@[j] == spec_lower_char(s@[j]),
        decreases s.len() - i,
    {
        r.push(lower_char(s[i]));
        i = i + 1;
    }
    proof {
        assert(r@ =~= spec_lower(s@));
    }
    r
}

/// Drop every leading `'_'`.
pub open spec fn drop_leading_underscores(s: Seq<char>) -> Seq<char>
    decreases s.len(),
{
    if s.len() > 0 && s[0] == '_' {
        drop_leading_underscores(s.skip(1))
    } else {
        s
    }
}

/// A character a lifetime name can consist of: an ASCII letter, digit
/// or underscore.
pub open spec fn lifetime_char(c: char) -> bool {
    ('a' <= c && c <= 'z') || ('A' <= c && c <= 'Z') || ('0' <= c && c <= '9') || c == '_'
}

/// The remainder of `s` after its leading run of lifetime-name
/// characters.
pub open spec fn skip_lifetime_name(s: Seq<char>) -> Seq<char>
    decreases s.len(),
{
    if s.len() > 0 && lifetime_char(s[0]) {
        skip_lifetime_name(s.skip(1))
    } else {
        s
    }
}

/// Skipping a name run never lengthens the sequence.
pub proof fn lemma_skip_lifetime_name_len(s: Seq<char>)
    ensures
        skip_lifetime_name(s).len() <= s.len(),
    decreases s.len(),
{
    if s.len() > 0 && lifetime_char(s[0]) {
        lemma_skip_lifetime_name_len(s.skip(1));
    }
}

/// `s` with every lifetime annotation removed: each quote disappears
/// together with the lifetime name following it.
pub open spec fn strip_lifetimes(s: Seq<char>) -> Seq<char>
    decreases s.len(),
    via strip_lifetimes_decreases
{
    if s.len() == 0 {
        s
    } else if s[0] == '\'' {
        strip_lifetimes(skip_lifetime_name(s.skip(1)))
    } else {
        seq![s[0]] + strip_lifetimes(s.skip(1))
    }
}

#[via_fn]
proof fn strip_lifetimes_decreases(s: Seq<char>) {
    if s.len() > 0 && s[0] == '\'' {
        lemma_skip_lifetime_name_len(s.skip(1));
    }
}

/// Removal of lifetime annotations, whitespace and reference sigils.
/// Lifetimes go first, while whitespace still delimits their names.
pub open spec fn strip_sigils(s: Seq<char>) -> Seq<char> {
    spec_replace(
        spec_replace(strip_lifetimes(s), seq![' '], Seq::empty()),
        seq!['&'],
        Seq::empty(),
    )
}

/// Is `c` a lifetime-name character?
fn is_lifetime_char(c: char) -> (r: bool)
    ensures
        r == lifetime_char(c),
{
    ('a' <= c && c <= 'z') || ('A' <= c && c <= 'Z') || ('0' <= c && c <= '9') || c == '_'
}

/// Remove every lifetime annotation from `s`.
#[verifier::loop_isolation(false)]
fn strip_lifetimes_vec(s: &Vec<char>) -> (r: Vec<char>)
    ensures
        r@ == strip_lifetimes(s@),
{
    let mut r: Vec<char> = Vec::new();
    let mut i: usize = 0;
    proof {
        assert(s@.skip(0) =~= s@);
        assert(r@ + strip_lifetimes(s@) =~= strip_lifetimes(s@));
    }
    while i < s.len()
        invariant
            i <= s@.len(),
            strip_lifetimes(s@) == r@ + strip_lifetimes(s@.skip(i as int)),
        decreases s.len() - i,
    {
        if s[i] == '\'' {
            proof {
                assert(s@.skip(i as int)[0] == s@[i as int]);
                assert(s@.skip(i as int).skip(1) =~= s@.skip(i + 1));
            }
            let mut j = i + 1;
            while j < s.len() && is_lifetime_char(s[j])
                invariant
                    i + 1 <= j <= s@.len(),
                    skip_lifetime_name(s@.skip(i + 1)) == skip_lifetime_name(s@.skip(j as int)),
                decreases s.len() - j,
            {
                proof {
                    assert(s@.skip(j as int)[0] == s@[j as int]);
                    assert(s@.skip(j as int).skip(1) =~= s@.skip(j + 1));
                }
                j = j + 1;
            }
            proof {
                if j < s@.len() {
                    assert(s@.skip(j as int)[0] == s@[j as int]);
                }
                assert(skip_lifetime_name(s@.skip(j as int)) == s@.skip(j as int));
            }
            i = j;
        } else {
            proof {
                assert(s@.skip(i as int)[0] == s@[i as int]);
                assert(s@.skip(i as int).skip(1) =~= s@.skip(i + 1));
            }
            r.push(s[i]);
            i = i + 1;
        }
    }
    proof {
        assert(s@.skip(i as int) =~= Seq::<char>::empty());
        assert(r@ =~= r@ + strip_lifetimes(s@.skip(i as int)));
    }
    r
}

/// Folding of generic, tuple and namespace punctuation into `'_'`.
pub open spec fn fold_punctuation(s: Seq<char>) -> Seq<char> {
    spec_replace(
        spec_replace(
            spec_replace(
                spec_replace(
                    spec_replace(
                        spec_replace(s, seq!['<'], seq!['_']),
                        seq!['>'],
                        seq!['_'],
                    ),
                    seq!['('],
                    seq!['_'],
                ),
                seq![')'],
                seq!['_'],
            ),
            seq![','],
            seq!['_'],
        ),
        seq![':', ':'],
        seq!['_'],
    )
}

/// Removal of a leading `dyn` marker from an already lowercased key.
pub open spec fn strip_dyn_marker(s: Seq<char>) -> Seq<char> {
    if starts_with(s, seq!['d', 'y', 'n']) {
        drop_leading_underscores(s.skip(3))
    } else {
        s
    }
}

/// The normalized key of a raw type expression under wrapper list `ws`.
pub open spec fn spec_normalize(s: Seq<char>, ws: Seq<Seq<char>>) -> Seq<char> {
    strip_dyn_marker(spec_lower(fold_punctuation(strip_wrappers(strip_sigils(s), ws))))
}

/// Apply the first wrapper of `wrappers` that strips from `s`, if any.
#[verifier::loop_isolation(false)]
fn strip_step(s: &Vec<char>, wrappers: &Vec<String>) -> (r: Option<Vec<char>>)
    ensures
        match r {
            Some(t) => try_strip_list(s@, wrappers.deep_view()) == Some(t@),
            None => try_strip_list(s@, wrappers.deep_view()) is None,
        },
{
    let ghost ws = wrappers.deep_view();
    let mut k: usize = 0;
    proof {
        assert(ws.skip(0) =~= ws);
    }
    while k < wrappers.len()
        invariant
            k <= wrappers@.len(),
            ws == wrappers.deep_view(),
            try_strip_list(s@, ws) == try_strip_list(s@, ws.skip(k as int)),
        decreases wrappers.len() - k,
    {
        proof {
            assert(ws.skip(k as int)[0] == ws[k as int]);
            assert(ws.skip(k as int).drop_first() =~= ws.skip(k + 1));
        }
        let w = &wrappers[k];
        let mut pat = str_to_chars(w.as_str());
        pat.push('<');
        proof {
            assert(pat@ =~= ws[k as int] + seq!['<']);
        }
        match find_first(s, &pat) {
            Some(pos) => {
                proof {
                    lemma_find_from_props(s@, pat@, 0);
                    assert(sub_at(s@, pat@, pos as int));
                }
                let ok_close = s.len() > 0 && s[s.len() - 1] == '>';
                let ok_prefix = pos == 0 || (pos >= 2 && s[pos - 1] == ':' && s[pos - 2] == ':');
                proof {
                    if pos >= 2 {
                        assert(s@.take(pos as int).len() == pos);
                        assert(s@.take(pos as int).subrange(pos - 2, pos as int) =~= seq![
                            s@[pos - 2],
                            s@[pos - 1],
                        ]);
                        assert(ends_with(s@.take(pos as int), seq![':', ':']) == (s@[pos - 2]
                            == ':' && s@[pos - 1] == ':'));
                    } else {
                        assert(s@.take(pos as int).len() < 2);
                        assert(!ends_with(s@.take(pos as int), seq![':', ':']));
                    }
                }
                if ok_close && ok_prefix {
                    proof {
                        if pos + pat@.len() == s@.len() {
                            assert(s@.subrange(pos as int, pos + pat@.len() as int)[pat@.len()
                                - 1] == '<');
                            assert(s@[s@.len() - 1] == '<');
                        }
                        assert(pos + pat@.len() <= s@.len() - 1);
                    }
                    let t = crate::strutil::sub_vec(s, pos + pat.len(), s.len() - 1);
                    return Some(t);
                }
            },
            None => {},
        }
        proof {
            assert(try_strip_one(s@, ws[k as int]) is None);
        }
        k = k + 1;
    }
    proof {
        assert(ws.skip(k as int) =~= Seq::<Seq<char>>::empty());
    }
    None
}

/// Strip outermost ownership wrappers until none of `wrappers` applies.
#[verifier::loop_isolation(false)]
fn strip_all(s: Vec<char>, wrappers: &Vec<String>) -> (r: Vec<char>)
    ensures
        r@ == strip_wrappers(s@, wrappers.deep_view()),
{
    let ghost orig = s@;
    let mut cur = s;
    loop
        invariant
            strip_wrappers(orig, wrappers.deep_view()) == strip_wrappers(
                cur@,
                wrappers.deep_view(),
            ),
        decreases cur@.len(),
    {
        proof {
            lemma_strip_list_shrinks(cur@, wrappers.deep_view());
        }
        match strip_step(&cur, wrappers) {
            Some(t) => {
                cur = t;
            },
            None => {
                return cur;
            },
        }
    }
}

/// Drop the leading underscores of `s`.
#[verifier::loop_isolation(false)]
fn drop_underscores(s: &Vec<char>) -> (r: Vec<char>)
    ensures
        r@ == drop_leading_underscores(s@),
{
    let mut i: usize = 0;
    proof {
        assert(s@.skip(0) =~= s@);
    }
    while i < s.len() && s[i] == '_'
        invariant
            i <= s@.len(),
            drop_leading_underscores(s@) == drop_leading_underscores(s@.skip(i as int)),
        decreases s.len() - i,
    {
        proof {
            assert(s@.skip(i as int)[0] == s@[i as int]);
            assert(s@.skip(i as int).skip(1) =~= s@.skip(i + 1));
        }
        i = i + 1;
    }
    proof {
        if i < s@.len() {
            assert(s@.skip(i as int)[0] == s@[i as int]);
        }
        assert(drop_leading_underscores(s@.skip(i as int)) == s@.skip(i as int));
    }
    crate::strutil::sub_vec(s, i, s.len())
}

/// Replace every occurrence of the single character `c` in `s` by `d`.
pub fn replace_char(s: &Vec<char>, c: char, d: char) -> (r: Vec<char>)
    ensures
        r@ == spec_replace(s@, seq![c], seq![d]),
{
    let from: Vec<char> = vec![c];
    let to: Vec<char> = vec![d];
    proof {
        assert(from@ =~= seq![c]);
        assert(to@ =~= seq![d]);
    }
    replace_sub(s, &from, &to)
}

/// Remove every occurrence of the single character `c` from `s`.
pub fn remove_char(s: &Vec<char>, c: char) -> (r: Vec<char>)
    ensures
        r@ == spec_replace(s@, seq![c], Seq::empty()),
{
    let from: Vec<char> = vec![c];
    let to: Vec<char> = Vec::new();
    proof {
        assert(from@ =~= seq![c]);
        assert(to@ =~= Seq::<char>::empty());
    }
    replace_sub(s, &from, &to)
}

/// Canonicalize a raw type expression into a comparable key.
///
/// Lifetime annotations (the quote and the name after it), whitespace
/// and `&` sigils are removed; wrappers named in `wrappers` are stripped
/// repeatedly while one encloses the whole remaining expression;
/// generic, tuple and namespace punctuation is folded into `'_'`; ASCII
/// letters are lowercased; a leading `dyn` marker is dropped together
/// with the separators that followed it.
pub fn normalize_type(ty_str: &str, wrappers: &Vec<String>) -> (r: String)
    ensures
        r@ == spec_normalize(ty_str@, wrappers.deep_view()),
{
    let chars = str_to_chars(ty_str);
    let s = strip_lifetimes_vec(&chars);
    let s = remove_char(&s, ' ');
    let s = remove_char(&s, '&');
    proof {
        assert(s@ == strip_sigils(chars@));
    }
    let s = strip_all(s, wrappers);
    let s = replace_char(&s, '<', '_');
    let s = replace_char(&s, '>', '_');
    let s = replace_char(&s, '(', '_');
    let s = replace_char(&s, ')', '_');
    let s = replace_char(&s, ',', '_');
    let from: Vec<char> = vec![':', ':'];
    let to: Vec<char> = vec!['_'];
    let s = replace_sub(&s, &from, &to);
    proof {
        assert(from@ =~= seq![':', ':']);
        assert(to@ =~= seq!['_']);
    }
    let s = lower_chars(&s);
    let is_dyn = s.len() >= 3 && s[0] == 'd' && s[1] == 'y' && s[2] == 'n';
    proof {
        if s@.len() >= 3 {
            assert(s@.subrange(0, 3) =~= seq![s@[0], s@[1], s@[2]]);
            assert(starts_with(s@, seq!['d', 'y', 'n']) == (s@[0] == 'd' && s@[1] == 'y' && s@[2]
                == 'n'));
        } else {
            assert(!starts_with(s@, seq!['d', 'y', 'n']));
        }
    }
    let s = if is_dyn {
        let tail = crate::strutil::sub_vec(&s, 3, s.len());
        proof {
            assert(tail@ =~= s@.skip(3));
        }
        drop_underscores(&tail)
    } else {
        s
    };
    chars_to_string(&s)
}

} // verus!
