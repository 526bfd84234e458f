//! Source synthesis: from an ordered plan to the generated function body.
//!
//! Each declaration in plan order is given a unique local binding named
//! after its output type plus a counter. Each argument is resolved to a
//! previously bound variable by the same exact-then-fuzzy key lookup as
//! resolution, passed borrowed or dereferenced when the bound value
//! carries an ownership wrapper the argument lacks, and routed through an
//! explicit coercion binding when the argument requires a dynamic-dispatch
//! capability under a different declared type. Every extra bound type of a
//! declaration receives its own coercion binding. A fallible declaration
//! propagates failure, which is legal only when the target is fallible.

use vstd::prelude::*;

use crate::errors::{GenerationFault, WireError};
use crate::graph::{
    count_key, decl_regs, flat_regs, lemma_dup_counts_twice, lemma_flat_regs_snoc, regs_of,
};
use crate::keys::{
    find_first, is_match, lower_chars, normalize_type, remove_char, spec_find, spec_is_match,
    spec_lower, spec_normalize,
};
use crate::models::{arg_lookup_ty, own_keys, ArgView, ProviderInfo, ProviderView};
use crate::resolve::plan_views;
use crate::strutil::{
    chars_eq, chars_to_string, contains_sub, has_sub, push_all, spec_replace, starts_with,
    str_to_chars, sub_vec,
};

verus! {

/// Why synthesis failed, over character sequences.
pub enum FaultView {
    /// A fallible declaration at this canonical path feeds a
    /// non-fallible target.
    Fallible(Seq<char>),
    /// This dependency key had no bound variable.
    Unbound(Seq<char>),
}

impl View for GenerationFault {
    type V = FaultView;

    open spec fn view(&self) -> FaultView {
        match self {
            GenerationFault::FallibleProvider { path } => FaultView::Fallible(path@),
            GenerationFault::UnboundDependency { key } => FaultView::Unbound(key@),
        }
    }
}

/// The synthesizer's running state: bound variables (key, variable name,
/// declared type, in binding order), the statements emitted so far, and
/// the first fault met, if any.
pub struct SynthState {
    pub vars: Seq<(Seq<char>, Seq<char>, Seq<char>)>,
    pub body: Seq<char>,
    pub fault: Option<FaultView>,
}

/// First entry of the binding table holding key `k`, scanning from `i`.
pub open spec fn vt_find_from(
    m: Seq<(Seq<char>, Seq<char>, Seq<char>)>,
    k: Seq<char>,
    i: int,
) -> Option<int>
    decreases m.len() - i,
    when 0 <= i
{
    if i >= m.len() {
        None
    } else if m[i].0 == k {
        Some(i)
    } else {
        vt_find_from(m, k, i + 1)
    }
}

/// First entry of the binding table holding key `k`.
pub open spec fn vt_find(m: Seq<(Seq<char>, Seq<char>, Seq<char>)>, k: Seq<char>) -> Option<int> {
    vt_find_from(m, k, 0)
}

/// First entry whose key matches `d` fuzzily, scanning from `i`.
pub open spec fn vt_fuzzy_from(
    m: Seq<(Seq<char>, Seq<char>, Seq<char>)>,
    d: Seq<char>,
    i: int,
) -> Option<int>
    decreases m.len() - i,
    when 0 <= i
{
    if i >= m.len() {
        None
    } else if spec_is_match(d, m[i].0) || spec_is_match(m[i].0, d) {
        Some(i)
    } else {
        vt_fuzzy_from(m, d, i + 1)
    }
}

/// Bind `k` to variable `v` of declared type `ty`, replacing an existing
/// entry for `k` or appending a new one.
pub open spec fn vt_set(
    m: Seq<(Seq<char>, Seq<char>, Seq<char>)>,
    k: Seq<char>,
    v: Seq<char>,
    ty: Seq<char>,
) -> Seq<(Seq<char>, Seq<char>, Seq<char>)> {
    match vt_find(m, k) {
        Some(i) => m.update(i, (k, v, ty)),
        None => m.push((k, v, ty)),
    }
}

/// The key a dependency lookup lands on: the key itself when bound, else
/// the first fuzzily matching bound key, else the key itself.
pub open spec fn vt_resolve_key(
    m: Seq<(Seq<char>, Seq<char>, Seq<char>)>,
    k: Seq<char>,
) -> Seq<char> {
    if vt_find(m, k) is Some {
        k
    } else {
        match vt_fuzzy_from(m, k, 0) {
            Some(i) => m[i].0,
            None => k,
        }
    }
}

/// The decimal digit character for `d` (expected below ten).
pub open spec fn digit_char(d: nat) -> char {
    if d == 0 {
        '0'
    } else if d == 1 {
        '1'
    } else if d == 2 {
        '2'
    } else if d == 3 {
        '3'
    } else if d == 4 {
        '4'
    } else if d == 5 {
        '5'
    } else if d == 6 {
        '6'
    } else if d == 7 {
        '7'
    } else if d == 8 {
        '8'
    } else {
        '9'
    }
}

/// The decimal rendering of `n`.
pub open spec fn dec_seq(n: nat) -> Seq<char>
    decreases n,
{
    if n < 10 {
        seq![digit_char(n)]
    } else {
        dec_seq(n / 10).push(digit_char(n % 10))
    }
}

/// Leading spaces removed.
pub open spec fn trim_start_spaces(s: Seq<char>) -> Seq<char>
    decreases s.len(),
{
    if s.len() > 0 && s[0] == ' ' {
        trim_start_spaces(s.skip(1))
    } else {
        s
    }
}

/// Trailing spaces removed.
pub open spec fn trim_end_spaces(s: Seq<char>) -> Seq<char>
    decreases s.len(),
{
    if s.len() > 0 && s.last() == ' ' {
        trim_end_spaces(s.drop_last())
    } else {
        s
    }
}

/// Spaces removed at both ends.
pub open spec fn trim_spaces(s: Seq<char>) -> Seq<char> {
    trim_end_spaces(trim_start_spaces(s))
}

/// The segment after the last namespace separator.
pub open spec fn last_segment(s: Seq<char>) -> Seq<char>
    decreases s.len(),
    via last_segment_decreases
{
    match spec_find(s, seq![':', ':']) {
        Some(p) => last_segment(s.skip(p + 2)),
        None => s,
    }
}

#[via_fn]
proof fn last_segment_decreases(s: Seq<char>) {
    crate::keys::lemma_find_from_props(s, seq![':', ':'], 0);
}

/// An identifier character: an ASCII letter, digit or underscore.
pub open spec fn is_ident_char(c: char) -> bool {
    ('a' <= c && c <= 'z') || ('A' <= c && c <= 'Z') || ('0' <= c && c <= '9') || c == '_'
}

/// The base of a local binding name: the output type up to its generic
/// arguments, trimmed, reduced to its unqualified segment, restricted to
/// identifier characters, lowercased.
pub open spec fn var_base_of(ret: Seq<char>) -> Seq<char> {
    let cut = match spec_find(ret, seq!['<']) {
        Some(p) => ret.take(p),
        None => ret,
    };
    spec_lower(last_segment(trim_spaces(cut)).filter(|c: char| is_ident_char(c)))
}

/// Tokens joined by a separator.
pub open spec fn join_rest(ts: Seq<Seq<char>>, sep: Seq<char>) -> Seq<char>
    decreases ts.len(),
{
    if ts.len() == 0 {
        Seq::empty()
    } else {
        sep + ts[0] + join_rest(ts.drop_first(), sep)
    }
}

/// Tokens joined by a separator.
pub open spec fn join_tokens(ts: Seq<Seq<char>>, sep: Seq<char>) -> Seq<char> {
    if ts.len() == 0 {
        Seq::empty()
    } else {
        ts[0] + join_rest(ts.drop_first(), sep)
    }
}

/// Does the bound value's declared type carry an ownership wrapper that
/// the argument's declared type lacks?
pub open spec fn wrap_mismatch(ptype: Seq<char>, aty: Seq<char>, ws: Seq<Seq<char>>) -> bool {
    exists|i: int|
        0 <= i < ws.len() && contains_sub(ptype, #[trigger] ws[i] + seq!['<']) && !contains_sub(
            aty,
            ws[i] + seq!['<'],
        )
}

/// The token passing variable `v` to an argument: borrowed or
/// dereferenced when an ownership adaptation is needed, cloned otherwise.
pub open spec fn render_token(v: Seq<char>, is_ref: bool, needs_as_ref: bool) -> Seq<char> {
    if is_ref {
        if needs_as_ref {
            v + ".as_ref()"@
        } else {
            seq!['&'] + v
        }
    } else {
        if needs_as_ref {
            v + ".as_ref().clone()"@
        } else {
            v + ".clone()"@
        }
    }
}

/// Process one argument: resolve its dependency key to a bound variable,
/// emit a coercion binding when required, and produce its passing token.
pub open spec fn do_arg(
    vars: Seq<(Seq<char>, Seq<char>, Seq<char>)>,
    body: Seq<char>,
    tokens: Seq<Seq<char>>,
    a: ArgView,
    ws: Seq<Seq<char>>,
) -> (Seq<char>, Seq<Seq<char>>, Option<FaultView>) {
    let akey = vt_resolve_key(vars, spec_normalize(arg_lookup_ty(a), ws));
    match vt_find(vars, akey) {
        None => (body, tokens, Some(FaultView::Unbound(akey))),
        Some(i) => {
            let var = vars[i].1;
            let ptype = spec_replace(vars[i].2, seq![' '], Seq::empty());
            let aty = spec_replace(a.ty, seq![' '], Seq::empty());
            let is_ref = aty.len() > 0 && aty[0] == '&';
            let needs = wrap_mismatch(ptype, aty, ws);
            if !needs && ptype != aty && contains_sub(aty, seq!['d', 'y', 'n']) {
                let bname = var + "_bridge_"@ + dec_seq(tokens.len());
                let expected = if is_ref {
                    a.ty.skip(1)
                } else {
                    a.ty
                };
                let stmt = "let "@ + bname + ": "@ + expected + " = "@ + var + ".clone();\n"@;
                (body + stmt, tokens.push(render_token(bname, is_ref, needs)), None)
            } else {
                (body, tokens.push(render_token(var, is_ref, needs)), None)
            }
        },
    }
}

/// Process the arguments of one declaration, left to right, stopping at
/// the first fault.
pub open spec fn do_args(
    vars: Seq<(Seq<char>, Seq<char>, Seq<char>)>,
    body: Seq<char>,
    tokens: Seq<Seq<char>>,
    args: Seq<ArgView>,
    ws: Seq<Seq<char>>,
) -> (Seq<char>, Seq<Seq<char>>, Option<FaultView>)
    decreases args.len(),
{
    if args.len() == 0 {
        (body, tokens, None)
    } else {
        let (b, t, f) = do_arg(vars, body, tokens, args[0], ws);
        if f is Some {
            (b, t, f)
        } else {
            do_args(vars, b, t, args.drop_first(), ws)
        }
    }
}

/// Emit the coercion bindings of a declaration's bound types and record
/// their variables.
pub open spec fn do_bindings(
    vars: Seq<(Seq<char>, Seq<char>, Seq<char>)>,
    body: Seq<char>,
    bindings: Seq<Seq<char>>,
    base: Seq<char>,
    name: Seq<char>,
    ws: Seq<Seq<char>>,
) -> (Seq<(Seq<char>, Seq<char>, Seq<char>)>, Seq<char>)
    decreases bindings.len(),
{
    if bindings.len() == 0 {
        (vars, body)
    } else {
        let b = bindings[0];
        let bkey = spec_normalize(b, ws);
        let bname = base + "_as_"@ + bkey;
        let stmt = "let "@ + bname + ": "@ + b + " = "@ + name + ".clone();\n"@;
        do_bindings(vt_set(vars, bkey, bname, b), body + stmt, bindings.drop_first(), base, name, ws)
    }
}

/// Synthesize the statements of one declaration in plan order.
pub open spec fn synth_step(
    st: SynthState,
    p: ProviderView,
    fallible: bool,
    ws: Seq<Seq<char>>,
) -> SynthState {
    if st.fault is Some {
        st
    } else {
        let ret_key = spec_normalize(p.ret, ws);
        let base = var_base_of(p.ret);
        let name = base + seq!['_'] + dec_seq(st.vars.len());
        let (body1, tokens, f) = do_args(st.vars, st.body, Seq::empty(), p.args, ws);
        if f is Some {
            SynthState { vars: st.vars, body: body1, fault: f }
        } else if p.is_result && !fallible {
            SynthState { vars: st.vars, body: body1, fault: Some(FaultView::Fallible(p.path)) }
        } else {
            let stmt = "let "@ + name + " = "@ + p.path + seq!['('] + join_tokens(
                tokens,
                ", "@,
            ) + seq![')'] + (if p.is_result {
                seq!['?']
            } else {
                Seq::empty()
            }) + ";\n"@;
            let vars1 = vt_set(st.vars, ret_key, name, p.ret);
            let (vars2, body2) = do_bindings(vars1, body1 + stmt, p.bindings, base, name, ws);
            SynthState { vars: vars2, body: body2, fault: None }
        }
    }
}

/// Run the synthesizer over the whole plan.
pub open spec fn run_steps(
    st: SynthState,
    plan: Seq<ProviderView>,
    fallible: bool,
    ws: Seq<Seq<char>>,
) -> SynthState
    decreases plan.len(),
{
    if plan.len() == 0 {
        st
    } else {
        run_steps(synth_step(st, plan[0], fallible, ws), plan.drop_first(), fallible, ws)
    }
}

/// The empty initial synthesizer state.
pub open spec fn synth_init() -> SynthState {
    SynthState { vars: Seq::empty(), body: Seq::empty(), fault: None }
}

/// The generated function body for a plan, a normalized target key and a
/// target fallibility, or the first fault met.
pub open spec fn synth_spec(
    plan: Seq<ProviderView>,
    target: Seq<char>,
    fallible: bool,
    ws: Seq<Seq<char>>,
) -> Result<Seq<char>, FaultView> {
    let st = run_steps(synth_init(), plan, fallible, ws);
    match st.fault {
        Some(f) => Err(f),
        None => {
            let tk = vt_resolve_key(st.vars, target);
            match vt_find(st.vars, tk) {
                None => Err(FaultView::Unbound(tk)),
                Some(i) => Ok(
                    st.body + (if fallible {
                        "Ok("@ + st.vars[i].1 + seq![')']
                    } else {
                        st.vars[i].1
                    }),
                ),
            }
        },
    }
}

/// Append the characters of a string literal.
fn push_lit(out: &mut Vec<char>, s: &str)
    ensures
        final(out)@ == old(out)@ + s@,
{
    let v = str_to_chars(s);
    push_all(out, &v);
}

/// The decimal rendering of `n`.
fn dec_chars(n: usize) -> (r: Vec<char>)
    ensures
        r@ == dec_seq(n as nat),
    decreases n,
{
    let d = n % 10;
    let c = if d == 0 {
        '0'
    } else if d == 1 {
        '1'
    } else if d == 2 {
        '2'
    } else if d == 3 {
        '3'
    } else if d == 4 {
        '4'
    } else if d == 5 {
        '5'
    } else if d == 6 {
        '6'
    } else if d == 7 {
        '7'
    } else if d == 8 {
        '8'
    } else {
        '9'
    };
    if n < 10 {
        let r: Vec<char> = vec![c];
        proof {
            assert(r@ =~= seq![digit_char(n as nat)]);
        }
        r
    } else {
        let mut r = dec_chars(n / 10);
        r.push(c);
        r
    }
}

/// Leading and trailing spaces removed.
#[verifier::loop_isolation(false)]
fn trim_spaces_vec(s: &Vec<char>) -> (r: Vec<char>)
    ensures
        r@ == trim_spaces(s@),
{
    let mut a: usize = 0;
    proof {
        assert(s@.skip(0) =~= s@);
    }
    while a < s.len() && s[a] == ' '
        invariant
            a <= s@.len(),
            trim_start_spaces(s@) == trim_start_spaces(s@.skip(a as int)),
        decreases s.len() - a,
    {
        proof {
            assert(s@.skip(a as int)[0] == s@[a as int]);
            assert(s@.skip(a as int).skip(1) =~= s@.skip(a + 1));
        }
        a = a + 1;
    }
    proof {
        if a < s@.len() {
            assert(s@.skip(a as int)[0] == s@[a as int]);
        }
        assert(trim_start_spaces(s@.skip(a as int)) == s@.skip(a as int));
    }
    let mut b: usize = s.len();
    let ghost t = s@.skip(a as int);
    proof {
        assert(t.take(t.len() as int) =~= t);
    }
    while b > a && s[b - 1] == ' '
        invariant
            a <= b <= s@.len(),
            t == s@.skip(a as int),
            trim_end_spaces(t) == trim_end_spaces(t.take(b - a)),
        decreases b,
    {
        proof {
            assert(t.take(b - a).last() == s@[b - 1]);
            assert(t.take(b - a).drop_last() =~= t.take(b - a - 1));
        }
        b = b - 1;
    }
    proof {
        if b > a {
            assert(t.take(b - a).last() == s@[b - 1]);
        }
        assert(trim_end_spaces(t.take(b - a)) == t.take(b - a));
        assert(s@.subrange(a as int, b as int) =~= t.take(b - a));
    }
    sub_vec(s, a, b)
}

/// The segment after the last namespace separator.
#[verifier::loop_isolation(false)]
fn last_segment_vec(s: Vec<char>) -> (r: Vec<char>)
    ensures
        r@ == last_segment(s@),
{
    let ghost orig = s@;
    let mut cur = s;
    let sep: Vec<char> = vec![':', ':'];
    proof {
        assert(sep@ =~= seq![':', ':']);
    }
    loop
        invariant
            sep@ == seq![':', ':'],
            last_segment(orig) == last_segment(cur@),
        decreases cur@.len(),
    {
        match find_first(&cur, &sep) {
            Some(p) => {
                let n = cur.len();
                proof {
                    crate::keys::lemma_find_from_props(cur@, sep@, 0);
                }
                cur = sub_vec(&cur, p + 2, n);
            },
            None => {
                return cur;
            },
        }
    }
}

/// The subsequence of identifier characters.
pub open spec fn keep_ident(s: Seq<char>) -> Seq<char>
    decreases s.len(),
{
    if s.len() == 0 {
        s
    } else if is_ident_char(s[0]) {
        seq![s[0]] + keep_ident(s.skip(1))
    } else {
        keep_ident(s.skip(1))
    }
}

/// Is `c` an ASCII letter, digit or underscore?
fn ident_char(c: char) -> (r: bool)
    ensures
        r == is_ident_char(c),
{
    ('a' <= c && c <= 'z') || ('A' <= c && c <= 'Z') || ('0' <= c && c <= '9') || c == '_'
}

/// Keep only identifier characters.
#[verifier::loop_isolation(false)]
fn keep_ident_vec(s: &Vec<char>) -> (r: Vec<char>)
    ensures
        r@ == keep_ident(s@),
{
    let mut r: Vec<char> = Vec::new();
    let mut i: usize = 0;
    proof {
        assert(s@.skip(0) =~= s@);
        assert(r@ + keep_ident(s@) =~= keep_ident(s@));
    }
    while i < s.len()
        invariant
            i <= s@.len(),
            keep_ident(s@) == r@ + keep_ident(s@.skip(i as int)),
        decreases s.len() - i,
    {
        proof {
            assert(s@.skip(i as int)[0] == s@[i as int]);
            assert(s@.skip(i as int).skip(1) =~= s@.skip(i + 1));
        }
        if ident_char(s[i]) {
            r.push(s[i]);
        }
        i = i + 1;
    }
    proof {
        assert(keep_ident(s@.skip(i as int)) =~= Seq::<char>::empty());
        assert(r@ =~= r@ + keep_ident(s@.skip(i as int)));
    }
    r
}

/// The base of a local binding name for an output type.
fn var_base(ret: &String) -> (r: Vec<char>)
    ensures
        r@ == var_base_of(ret@),
{
    proof {
        lemma_keep_ident_is_filter(last_segment(trim_spaces(match spec_find(ret@, seq!['<']) {
            Some(p) => ret@.take(p),
            None => ret@,
        })));
    }
    let chars = str_to_chars(ret.as_str());
    let lt: Vec<char> = vec!['<'];
    proof {
        assert(lt@ =~= seq!['<']);
    }
    let cut = match find_first(&chars, &lt) {
        Some(p) => {
            proof {
                crate::keys::lemma_find_from_props(chars@, lt@, 0);
            }
            sub_vec(&chars, 0, p)
        },
        None => chars,
    };
    let trimmed = trim_spaces_vec(&cut);
    let seg = last_segment_vec(trimmed);
    let kept = keep_ident_vec(&seg);
    lower_chars(&kept)
}

/// `keep_ident` equals `Seq::filter` with the identifier predicate.
pub proof fn lemma_keep_ident_is_filter(s: Seq<char>)
    ensures
        keep_ident(s) == s.filter(|c: char| is_ident_char(c)),
    decreases s.len(),
{
    reveal(Seq::filter);
    if s.len() == 0 {
        assert(s.filter(|c: char| is_ident_char(c)) =~= keep_ident(s));
    } else {
        lemma_keep_ident_is_filter(s.drop_last());
        assert(s.drop_last().push(s.last()) =~= s);
        lemma_keep_ident_snoc(s.drop_last(), s.last());
        if is_ident_char(s.last()) {
            assert(keep_ident(s) =~= keep_ident(s.drop_last()).push(s.last()));
        }
    }
}

/// `keep_ident` over a sequence extended by one character.
pub proof fn lemma_keep_ident_snoc(s: Seq<char>, c: char)
    ensures
        keep_ident(s.push(c)) == (if is_ident_char(c) {
            keep_ident(s).push(c)
        } else {
            keep_ident(s)
        }),
    decreases s.len(),
{
    reveal_with_fuel(keep_ident, 3);
    if s.len() == 0 {
        assert(s.push(c)[0] == c);
        assert(s.push(c).skip(1) =~= Seq::<char>::empty());
        if is_ident_char(c) {
            assert(keep_ident(s.push(c)) =~= keep_ident(s).push(c));
        }
    } else {
        assert(s.push(c)[0] == s[0]);
        assert(s.push(c).skip(1) =~= s.skip(1).push(c));
        lemma_keep_ident_snoc(s.skip(1), c);
        if is_ident_char(c) {
            assert(keep_ident(s.push(c)) =~= keep_ident(s).push(c));
        } else {
            assert(keep_ident(s.push(c)) =~= keep_ident(s));
        }
    }
}

/// The view of a token list.
pub open spec fn tokens_view(ts: Seq<Vec<char>>) -> Seq<Seq<char>> {
    Seq::new(ts.len(), |i: int| ts[i]@)
}

/// Join tokens with a separator.
#[verifier::loop_isolation(false)]
fn join_vec(ts: &Vec<Vec<char>>, sep: &str) -> (r: Vec<char>)
    ensures
        r@ == join_tokens(tokens_view(ts@), sep@),
{
    let mut r: Vec<char> = Vec::new();
    if ts.len() == 0 {
        proof {
            assert(r@ =~= join_tokens(tokens_view(ts@), sep@));
        }
        return r;
    }
    push_all(&mut r, &ts[0]);
    let mut i: usize = 1;
    proof {
        assert(tokens_view(ts@)[0] == ts@[0]@);
        assert(tokens_view(ts@).skip(0) =~= tokens_view(ts@));
    }
    while i < ts.len()
        invariant
            1 <= i <= ts@.len(),
            join_tokens(tokens_view(ts@), sep@) == r@ + join_rest(
                tokens_view(ts@).skip(i as int),
                sep@,
            ),
        decreases ts.len() - i,
    {
        proof {
            assert(tokens_view(ts@).skip(i as int)[0] == ts@[i as int]@);
            assert(tokens_view(ts@).skip(i as int).skip(1) =~= tokens_view(ts@).skip(i + 1));
        }
        push_lit(&mut r, sep);
        push_all(&mut r, &ts[i]);
        i = i + 1;
    }
    proof {
        assert(tokens_view(ts@).skip(i as int) =~= Seq::<Seq<char>>::empty());
        assert(r@ =~= r@ + join_rest(tokens_view(ts@).skip(i as int), sep@));
    }
    r
}

/// The view of the binding table.
pub open spec fn vt_view(m: Seq<(String, String, String)>) -> Seq<(Seq<char>, Seq<char>, Seq<char>)> {
    Seq::new(m.len(), |i: int| (m[i].0@, m[i].1@, m[i].2@))
}

/// Look up the first binding with key `k`.
#[verifier::loop_isolation(false)]
fn vt_lookup(m: &Vec<(String, String, String)>, k: &String) -> (r: Option<usize>)
    ensures
        match r {
            Some(p) => vt_find(vt_view(m@), k@) == Some(p as int),
            None => vt_find(vt_view(m@), k@) is None,
        },
{
    let mut i: usize = 0;
    while i < m.len()
        invariant
            i <= m@.len(),
            forall|j: int| 0 <= j < i ==> (#[trigger] m@[j].0@) != k@,
        decreases m.len() - i,
    {
        if m[i].0 == *k {
            proof {
                lemma_vt_find_props(vt_view(m@), k@);
                match vt_find(vt_view(m@), k@) {
                    Some(p) => {
                        if p < i {
                            assert(vt_view(m@)[p].0 != k@);
                        }
                        if (i as int) < p {
                            assert(vt_view(m@)[i as int].0 != k@);
                        }
                    },
                    None => {
                        assert(vt_view(m@)[i as int].0 != k@);
                    },
                }
            }
            return Some(i);
        }
        i = i + 1;
    }
    proof {
        lemma_vt_find_props(vt_view(m@), k@);
    }
    None
}

/// `vt_find_from` finds exactly the first entry with the key.
pub proof fn lemma_vt_find_props(m: Seq<(Seq<char>, Seq<char>, Seq<char>)>, k: Seq<char>)
    ensures
        match vt_find(m, k) {
            Some(p) => 0 <= p < m.len() && m[p].0 == k && forall|j: int|
                0 <= j < p ==> m[j].0 != k,
            None => forall|j: int| 0 <= j < m.len() ==> m[j].0 != k,
        },
{
    lemma_vt_find_from_props(m, k, 0);
}

proof fn lemma_vt_find_from_props(m: Seq<(Seq<char>, Seq<char>, Seq<char>)>, k: Seq<char>, i: int)
    requires
        0 <= i,
    ensures
        match vt_find_from(m, k, i) {
            Some(p) => i <= p < m.len() && m[p].0 == k && forall|j: int|
                i <= j < p ==> m[j].0 != k,
            None => forall|j: int| i <= j < m.len() ==> m[j].0 != k,
        },
    decreases m.len() - i,
{
    if i < m.len() && m[i].0 != k {
        lemma_vt_find_from_props(m, k, i + 1);
    }
}

/// `vt_fuzzy_from` finds exactly the first fuzzily matching entry.
pub proof fn lemma_vt_fuzzy_props(m: Seq<(Seq<char>, Seq<char>, Seq<char>)>, d: Seq<char>, i: int)
    requires
        0 <= i,
    ensures
        match vt_fuzzy_from(m, d, i) {
            Some(p) => i <= p < m.len() && (spec_is_match(d, m[p].0) || spec_is_match(m[p].0, d))
                && forall|j: int|
                i <= j < p ==> !(spec_is_match(d, (#[trigger] m[j]).0) || spec_is_match(
                    m[j].0,
                    d,
                )),
            None => forall|j: int|
                i <= j < m.len() ==> !(spec_is_match(d, (#[trigger] m[j]).0) || spec_is_match(
                    m[j].0,
                    d,
                )),
        },
    decreases m.len() - i,
{
    if i < m.len() && !(spec_is_match(d, m[i].0) || spec_is_match(m[i].0, d)) {
        lemma_vt_fuzzy_props(m, d, i + 1);
    }
}

/// Look up the first binding whose key matches `d` fuzzily.
#[verifier::loop_isolation(false)]
fn vt_fuzzy_lookup(m: &Vec<(String, String, String)>, d: &String) -> (r: Option<usize>)
    ensures
        match r {
            Some(p) => vt_fuzzy_from(vt_view(m@), d@, 0) == Some(p as int),
            None => vt_fuzzy_from(vt_view(m@), d@, 0) is None,
        },
{
    let mut i: usize = 0;
    while i < m.len()
        invariant
            i <= m@.len(),
            forall|j: int|
                0 <= j < i ==> !(spec_is_match(d@, (#[trigger] m@[j]).0@) || spec_is_match(
                    m@[j].0@,
                    d@,
                )),
        decreases m.len() - i,
    {
        if is_match(d.as_str(), m[i].0.as_str()) || is_match(m[i].0.as_str(), d.as_str()) {
            proof {
                lemma_vt_fuzzy_props(vt_view(m@), d@, 0);
                match vt_fuzzy_from(vt_view(m@), d@, 0) {
                    Some(p) => {
                        if p < i {
                            assert(!(spec_is_match(d@, vt_view(m@)[p].0) || spec_is_match(
                                vt_view(m@)[p].0,
                                d@,
                            )));
                        }
                        if (i as int) < p {
                            assert(!(spec_is_match(d@, vt_view(m@)[i as int].0)
                                || spec_is_match(vt_view(m@)[i as int].0, d@)));
                        }
                    },
                    None => {
                        assert(!(spec_is_match(d@, vt_view(m@)[i as int].0) || spec_is_match(
                            vt_view(m@)[i as int].0,
                            d@,
                        )));
                    },
                }
            }
            return Some(i);
        }
        i = i + 1;
    }
    proof {
        lemma_vt_fuzzy_props(vt_view(m@), d@, 0);
    }
    None
}

/// Bind `k` to `v` of declared type `ty`, replacing or appending.
#[verifier::loop_isolation(false)]
fn vt_insert(m: &mut Vec<(String, String, String)>, k: String, v: String, ty: String)
    ensures
        vt_view(final(m)@) == vt_set(vt_view(old(m)@), k@, v@, ty@),
{
    let ghost m0 = vt_view(m@);
    match vt_lookup(m, &k) {
        Some(i) => {
            proof {
                lemma_vt_find_props(m0, k@);
            }
            m.remove(i);
            m.insert(i, (k, v, ty));
            proof {
                assert(vt_view(m@) =~= m0.update(i as int, (k@, v@, ty@)));
            }
        },
        None => {
            m.push((k, v, ty));
            proof {
                assert(vt_view(m@) =~= m0.push((k@, v@, ty@)));
            }
        },
    }
}

/// Resolve a dependency key against the binding table: the key itself
/// when bound, else the first fuzzily matching bound key.
fn vt_resolve(m: &Vec<(String, String, String)>, k: &String) -> (r: String)
    ensures
        r@ == vt_resolve_key(vt_view(m@), k@),
{
    match vt_lookup(m, k) {
        Some(_) => k.clone(),
        None => {
            match vt_fuzzy_lookup(m, k) {
                Some(i) => {
                    proof {
                        lemma_vt_fuzzy_props(vt_view(m@), k@, 0);
                    }
                    m[i].0.clone()
                },
                None => k.clone(),
            }
        },
    }
}

/// Does the bound type carry an ownership wrapper the argument lacks?
#[verifier::loop_isolation(false)]
fn wrap_mismatch_exec(ptype: &Vec<char>, aty: &Vec<char>, wrappers: &Vec<String>) -> (r: bool)
    ensures
        r == wrap_mismatch(ptype@, aty@, wrappers.deep_view()),
{
    let mut i: usize = 0;
    while i < wrappers.len()
        invariant
            i <= wrappers@.len(),
            forall|j: int|
                0 <= j < i ==> !(contains_sub(ptype@, #[trigger] wrappers.deep_view()[j]
                    + seq!['<']) && !contains_sub(aty@, wrappers.deep_view()[j] + seq!['<'])),
        decreases wrappers.len() - i,
    {
        let mut pat = str_to_chars(wrappers[i].as_str());
        pat.push('<');
        proof {
            assert(pat@ =~= wrappers.deep_view()[i as int] + seq!['<']);
        }
        if has_sub(ptype, &pat) && !has_sub(aty, &pat) {
            return true;
        }
        i = i + 1;
    }
    false
}

/// Every character of a decimal rendering is a digit, and a rendering
/// is never empty.
pub proof fn lemma_dec_seq_digits(n: nat)
    ensures
        dec_seq(n).len() >= 1,
        forall|x: int| 0 <= x < dec_seq(n).len() ==> '0' <= #[trigger] dec_seq(n)[x] <= '9',
    decreases n,
{
    if n >= 10 {
        lemma_dec_seq_digits(n / 10);
        assert forall|x: int| 0 <= x < dec_seq(n).len() implies '0' <= #[trigger] dec_seq(n)[x]
            <= '9' by {
            if x < dec_seq(n).len() - 1 {
                assert(dec_seq(n)[x] == dec_seq(n / 10)[x]);
            } else {
                assert(dec_seq(n)[x] == digit_char(n % 10));
            }
        }
    }
}

/// Decimal renderings are injective.
pub proof fn lemma_dec_seq_injective(n1: nat, n2: nat)
    requires
        dec_seq(n1) == dec_seq(n2),
    ensures
        n1 == n2,
    decreases n1,
{
    if n1 < 10 && n2 < 10 {
        assert(dec_seq(n1)[0] == digit_char(n1));
        assert(dec_seq(n2)[0] == digit_char(n2));
    } else if n1 < 10 {
        lemma_dec_seq_digits(n2 / 10);
        assert(dec_seq(n2).len() >= 2);
    } else if n2 < 10 {
        lemma_dec_seq_digits(n1 / 10);
        assert(dec_seq(n1).len() >= 2);
    } else {
        assert(dec_seq(n1).last() == digit_char(n1 % 10));
        assert(dec_seq(n2).last() == digit_char(n2 % 10));
        assert(n1 % 10 == n2 % 10);
        assert(dec_seq(n1).drop_last() =~= dec_seq(n1 / 10));
        assert(dec_seq(n2).drop_last() =~= dec_seq(n2 / 10));
        lemma_dec_seq_injective(n1 / 10, n2 / 10);
    }
}

/// Names built from a base, an underscore and a decimal counter differ
/// whenever their counters differ, whatever the bases are.
pub proof fn lemma_counter_names_differ(b1: Seq<char>, n1: nat, b2: Seq<char>, n2: nat)
    requires
        n1 != n2,
    ensures
        b1 + seq!['_'] + dec_seq(n1) != b2 + seq!['_'] + dec_seq(n2),
{
    let s1 = b1 + seq!['_'] + dec_seq(n1);
    let s2 = b2 + seq!['_'] + dec_seq(n2);
    let d1 = dec_seq(n1);
    let d2 = dec_seq(n2);
    lemma_dec_seq_digits(n1);
    lemma_dec_seq_digits(n2);
    if s1 == s2 {
        if d1.len() == d2.len() {
            assert(s1.skip(s1.len() - d1.len() as int) =~= d1);
            assert(s2.skip(s2.len() - d2.len() as int) =~= d2);
            assert(d1 == d2);
            lemma_dec_seq_injective(n1, n2);
        } else if d1.len() < d2.len() {
            let pos = s1.len() - d1.len() - 1;
            assert(s1[pos] == (b1 + seq!['_'])[b1.len() as int]);
            assert(s1[pos] == '_');
            assert(pos >= s2.len() - d2.len());
            assert(s2[pos] == d2[pos - (s2.len() - d2.len())]);
            assert('0' <= s2[pos] <= '9');
        } else {
            let pos = s2.len() - d2.len() - 1;
            assert(s2[pos] == (b2 + seq!['_'])[b2.len() as int]);
            assert(s2[pos] == '_');
            assert(pos >= s1.len() - d1.len());
            assert(s1[pos] == d1[pos - (s1.len() - d1.len())]);
            assert('0' <= s1[pos] <= '9');
        }
    }
}

/// A fault is sticky: once set, further steps change nothing.
pub proof fn lemma_fault_sticky(
    st: SynthState,
    plan: Seq<ProviderView>,
    fallible: bool,
    ws: Seq<Seq<char>>,
)
    requires
        st.fault is Some,
    ensures
        run_steps(st, plan, fallible, ws) == st,
    decreases plan.len(),
{
    if plan.len() > 0 {
        lemma_fault_sticky(st, plan.drop_first(), fallible, ws);
    }
}

/// A fault-free run has fault-free prefixes.
pub proof fn lemma_prefix_fault_free(
    plan: Seq<ProviderView>,
    i: int,
    fallible: bool,
    ws: Seq<Seq<char>>,
)
    requires
        0 <= i <= plan.len(),
        run_steps(synth_init(), plan, fallible, ws).fault is None,
    ensures
        run_steps(synth_init(), plan.take(i), fallible, ws).fault is None,
{
    lemma_run_steps_split(synth_init(), plan, i, fallible, ws);
    if run_steps(synth_init(), plan.take(i), fallible, ws).fault is Some {
        lemma_fault_sticky(
            run_steps(synth_init(), plan.take(i), fallible, ws),
            plan.skip(i),
            fallible,
            ws,
        );
    }
}

/// The registration stream of a plan splits at any prefix.
pub proof fn lemma_flat_regs_split(plan: Seq<ProviderView>, i: int, ws: Seq<Seq<char>>)
    requires
        0 <= i <= plan.len(),
    ensures
        flat_regs(plan, ws) == flat_regs(plan.take(i), ws) + flat_regs(plan.skip(i), ws),
    decreases i,
{
    if i == 0 {
        assert(plan.take(0) =~= Seq::<ProviderView>::empty());
        assert(plan.skip(0) =~= plan);
        assert(flat_regs(plan, ws) =~= flat_regs(plan.take(0), ws) + flat_regs(plan, ws));
    } else {
        lemma_flat_regs_split(plan, i - 1, ws);
        lemma_flat_regs_snoc(plan.take(i - 1), plan[i - 1], ws);
        assert(plan.take(i - 1).push(plan[i - 1]) =~= plan.take(i));
        assert(plan.skip(i - 1)[0] == plan[i - 1]);
        assert(plan.skip(i - 1).drop_first() =~= plan.skip(i));
        assert(flat_regs(plan.skip(i - 1), ws) == decl_regs(plan[i - 1], ws) + flat_regs(
            plan.skip(i),
            ws,
        ));
        assert(flat_regs(plan, ws) =~= flat_regs(plan.take(i), ws) + flat_regs(
            plan.skip(i),
            ws,
        ));
    }
}

/// Registration-stream prefixes strictly lengthen with the plan prefix.
pub proof fn lemma_flat_regs_len_mono(plan: Seq<ProviderView>, i: int, j: int, ws: Seq<Seq<char>>)
    requires
        0 <= i < j <= plan.len(),
    ensures
        flat_regs(plan.take(i), ws).len() < flat_regs(plan.take(j), ws).len(),
    decreases j,
{
    lemma_flat_regs_snoc(plan.take(j - 1), plan[j - 1], ws);
    assert(plan.take(j - 1).push(plan[j - 1]) =~= plan.take(j));
    crate::graph::lemma_dedup_first(own_keys(plan[j - 1], ws));
    assert(decl_regs(plan[j - 1], ws).len() >= 1);
    if i < j - 1 {
        lemma_flat_regs_len_mono(plan, i, j - 1, ws);
    }
}

/// The key column of the binding table.
pub open spec fn vt_keys(m: Seq<(Seq<char>, Seq<char>, Seq<char>)>) -> Seq<Seq<char>> {
    Seq::new(m.len(), |i: int| m[i].0)
}

/// The key column of a registration stream.
pub open spec fn stream_keys(rs: Seq<(Seq<char>, ProviderView)>) -> Seq<Seq<char>> {
    Seq::new(rs.len(), |x: int| rs[x].0)
}

/// A key is found exactly when the key column holds it.
proof fn lemma_vt_find_by_membership(m: Seq<(Seq<char>, Seq<char>, Seq<char>)>, k: Seq<char>)
    ensures
        (vt_find(m, k) is Some) == vt_keys(m).contains(k),
{
    lemma_vt_find_props(m, k);
    match vt_find(m, k) {
        Some(p) => {
            assert(vt_keys(m)[p] == k);
        },
        None => {
            if vt_keys(m).contains(k) {
                let x = choose|x: int| 0 <= x < vt_keys(m).len() && vt_keys(m)[x] == k;
                assert(m[x].0 == k);
            }
        },
    }
}

/// Emitting a declaration's coercion bindings leaves the table's key
/// column at the preserved prefix plus the declaration's deduplicated
/// key list: a repeated key replaces its earlier binding in place, a
/// fresh one is appended.
proof fn lemma_do_bindings_tracks(
    vars: Seq<(Seq<char>, Seq<char>, Seq<char>)>,
    body: Seq<char>,
    p: ProviderView,
    t0: int,
    base: Seq<char>,
    name: Seq<char>,
    ws: Seq<Seq<char>>,
    k0: Seq<Seq<char>>,
)
    requires
        0 <= t0 <= p.bindings.len(),
        vt_keys(vars) == k0 + crate::graph::dedup_keys(own_keys(p, ws).take(1 + t0)),
        forall|t: int|
            t0 <= t < p.bindings.len() ==> !k0.contains(
                spec_normalize(#[trigger] p.bindings[t], ws),
            ),
    ensures
        vt_keys(do_bindings(vars, body, p.bindings.skip(t0), base, name, ws).0) == k0
            + crate::graph::dedup_keys(own_keys(p, ws)),
    decreases p.bindings.len() - t0,
{
    reveal_with_fuel(crate::graph::dedup_keys, 2);
    let bnd = p.bindings.skip(t0);
    if t0 == p.bindings.len() {
        assert(bnd =~= Seq::<Seq<char>>::empty());
        assert(own_keys(p, ws).take(1 + t0) =~= own_keys(p, ws));
    } else {
        assert(bnd[0] == p.bindings[t0]);
        assert(bnd.drop_first() =~= p.bindings.skip(t0 + 1));
        let k = spec_normalize(p.bindings[t0], ws);
        assert(own_keys(p, ws)[1 + t0] == k);
        let pre = own_keys(p, ws).take(1 + t0);
        let pre1 = own_keys(p, ws).take(1 + t0 + 1);
        assert(pre1 =~= pre.push(k));
        assert(pre1.drop_last() =~= pre);
        assert(pre1.last() == k);
        crate::graph::lemma_dedup_same_elements(pre);
        let bname = base + "_as_"@ + k;
        let stmt = "let "@ + bname + ": "@ + bnd[0] + " = "@ + name + ".clone();\n"@;
        let vars1 = vt_set(vars, k, bname, bnd[0]);
        assert(do_bindings(vars, body, bnd, base, name, ws) == do_bindings(
            vars1,
            body + stmt,
            bnd.drop_first(),
            base,
            name,
            ws,
        ));
        lemma_vt_find_by_membership(vars, k);
        if pre.contains(k) {
            assert(crate::graph::dedup_keys(pre1) == crate::graph::dedup_keys(pre));
            assert(crate::graph::dedup_keys(pre).contains(k));
            assert(vt_keys(vars).contains(k)) by {
                let j = choose|j: int|
                    0 <= j < crate::graph::dedup_keys(pre).len()
                        && crate::graph::dedup_keys(pre)[j] == k;
                assert(vt_keys(vars)[k0.len() + j] == k);
            }
            assert(vt_find(vars, k) is Some);
            lemma_vt_find_props(vars, k);
            let idx = vt_find(vars, k)->Some_0;
            assert(vars1 == vars.update(idx, (k, bname, bnd[0])));
            assert(vt_keys(vars1) =~= vt_keys(vars));
            lemma_do_bindings_tracks(vars1, body + stmt, p, t0 + 1, base, name, ws, k0);
        } else {
            assert(crate::graph::dedup_keys(pre1) == crate::graph::dedup_keys(pre).push(k));
            assert(!crate::graph::dedup_keys(pre).contains(k));
            assert(!vt_keys(vars).contains(k)) by {
                if vt_keys(vars).contains(k) {
                    let x = choose|x: int|
                        0 <= x < vt_keys(vars).len() && vt_keys(vars)[x] == k;
                    if x < k0.len() {
                        assert(k0[x] == k);
                    } else {
                        assert(crate::graph::dedup_keys(pre)[x - k0.len()] == k);
                    }
                }
            }
            assert(vt_find(vars, k) is None);
            assert(vars1 == vars.push((k, bname, bnd[0])));
            assert(vt_keys(vars1) =~= (k0 + crate::graph::dedup_keys(pre)).push(k));
            assert(vt_keys(vars1) =~= k0 + crate::graph::dedup_keys(pre1));
            lemma_do_bindings_tracks(vars1, body + stmt, p, t0 + 1, base, name, ws, k0);
        }
    }
}

/// Under pairwise-distinct registration keys, after any plan prefix of
/// a fault-free run the binding table's key column equals the prefix's
/// registration-stream keys, in registration order: every fresh key is
/// appended and a declaration's repeated key replaces its own earlier
/// binding in place.
#[verifier::rlimit(100)]
#[verifier::spinoff_prover]
proof fn lemma_vars_track_regs(plan: Seq<ProviderView>, i: int, fallible: bool, ws: Seq<Seq<char>>)
    requires
        0 <= i <= plan.len(),
        forall|k: Seq<char>| count_key(#[trigger] flat_regs(plan, ws), k) <= 1,
        run_steps(synth_init(), plan, fallible, ws).fault is None,
    ensures
        vt_keys(run_steps(synth_init(), plan.take(i), fallible, ws).vars) == stream_keys(
            flat_regs(plan.take(i), ws),
        ),
    decreases i,
{
    lemma_prefix_fault_free(plan, i, fallible, ws);
    assert forall|a: int, b: int|
        0 <= a < b < flat_regs(plan, ws).len() implies flat_regs(plan, ws)[a].0 != flat_regs(
        plan,
        ws,
    )[b].0 by {
        if flat_regs(plan, ws)[a].0 == flat_regs(plan, ws)[b].0 {
            lemma_dup_counts_twice(flat_regs(plan, ws), a, b);
        }
    }
    if i == 0 {
        assert(plan.take(0) =~= Seq::<ProviderView>::empty());
        assert(vt_keys(synth_init().vars) =~= stream_keys(flat_regs(plan.take(0), ws)));
    } else {
        lemma_vars_track_regs(plan, i - 1, fallible, ws);
        lemma_prefix_fault_free(plan, i - 1, fallible, ws);
        let st = run_steps(synth_init(), plan.take(i - 1), fallible, ws);
        let p = plan[i - 1];
        lemma_run_steps_snoc(synth_init(), plan.take(i - 1), p, fallible, ws);
        assert(plan.take(i - 1).push(p) =~= plan.take(i));
        lemma_flat_regs_snoc(plan.take(i - 1), p, ws);
        lemma_flat_regs_split(plan, i, ws);
        lemma_flat_regs_split(plan, i - 1, ws);
        let k0 = stream_keys(flat_regs(plan.take(i - 1), ws));
        let base_len = flat_regs(plan.take(i - 1), ws).len() as int;
        assert forall|x: int|
            0 <= x < flat_regs(plan.take(i), ws).len() implies flat_regs(plan.take(i), ws)[x]
            == flat_regs(plan, ws)[x] by {
            assert(flat_regs(plan, ws) == flat_regs(plan.take(i), ws) + flat_regs(
                plan.skip(i),
                ws,
            ));
        }
        let st1 = run_steps(synth_init(), plan.take(i), fallible, ws);
        assert(st1 == synth_step(st, p, fallible, ws));
        assert(st1.fault is None);
        let ret_key = spec_normalize(p.ret, ws);
        let base = var_base_of(p.ret);
        let nm = base + seq!['_'] + dec_seq(st.vars.len());
        let ar = do_args(st.vars, st.body, Seq::empty(), p.args, ws);
        assert(ar.2 is None && !(p.is_result && !fallible));
        crate::graph::lemma_dedup_first(own_keys(p, ws));
        crate::graph::lemma_dedup_same_elements(own_keys(p, ws));
        assert(crate::graph::reg_keys_of(p, ws)[0] == ret_key);
        assert(decl_regs(p, ws)[0].0 == ret_key);
        assert(flat_regs(plan.take(i), ws)[base_len].0 == ret_key);
        assert(!k0.contains(ret_key)) by {
            if k0.contains(ret_key) {
                let x = choose|x: int| 0 <= x < k0.len() && k0[x] == ret_key;
                assert(flat_regs(plan, ws)[x].0 == ret_key);
                assert(flat_regs(plan, ws)[base_len].0 == ret_key);
            }
        }
        lemma_vt_find_by_membership(st.vars, ret_key);
        assert(vt_keys(st.vars) == k0);
        assert(vt_find(st.vars, ret_key) is None);
        let vars1 = vt_set(st.vars, ret_key, nm, p.ret);
        assert(vars1 == st.vars.push((ret_key, nm, p.ret)));
        let k1 = own_keys(p, ws).take(1);
        reveal_with_fuel(crate::graph::dedup_keys, 3);
        assert(k1.drop_last() =~= Seq::<Seq<char>>::empty());
        assert(!k1.drop_last().contains(k1.last()));
        assert(crate::graph::dedup_keys(k1) == crate::graph::dedup_keys(
            k1.drop_last(),
        ).push(k1.last()));
        assert(crate::graph::dedup_keys(k1) =~= seq![ret_key]);
        assert(vt_keys(vars1) =~= k0 + crate::graph::dedup_keys(own_keys(p, ws).take(1)));
        assert forall|t: int|
            0 <= t < p.bindings.len() implies !k0.contains(
            spec_normalize(#[trigger] p.bindings[t], ws),
        ) by {
            let k = spec_normalize(p.bindings[t], ws);
            assert(own_keys(p, ws)[1 + t] == k);
            assert(own_keys(p, ws).contains(k)) by {
                assert(own_keys(p, ws)[1 + t] == k);
            }
            assert(crate::graph::dedup_keys(own_keys(p, ws)).contains(k));
            let off = choose|off: int|
                0 <= off < crate::graph::reg_keys_of(p, ws).len()
                    && crate::graph::reg_keys_of(p, ws)[off] == k;
            assert(decl_regs(p, ws)[off].0 == k);
            assert(flat_regs(plan.take(i), ws)[base_len + off].0 == k);
            assert(flat_regs(plan, ws)[base_len + off].0 == k);
            if k0.contains(k) {
                let x = choose|x: int| 0 <= x < k0.len() && k0[x] == k;
                assert(flat_regs(plan, ws)[x].0 == k);
            }
        }
        lemma_do_bindings_tracks(
            vars1,
            ar.0 + ("let "@ + nm + " = "@ + p.path + seq!['('] + join_tokens(ar.1, ", "@)
                + seq![')'] + (if p.is_result {
                seq!['?']
            } else {
                Seq::<char>::empty()
            }) + ";\n"@),
            p,
            0,
            base,
            nm,
            ws,
            k0,
        );
        assert(p.bindings.skip(0) =~= p.bindings);
        assert(vt_keys(st1.vars) == k0 + crate::graph::reg_keys_of(p, ws));
        assert(vt_keys(st1.vars) =~= stream_keys(flat_regs(plan.take(i), ws))) by {
            assert forall|x: int|
                0 <= x < flat_regs(plan.take(i), ws).len() implies stream_keys(
                flat_regs(plan.take(i), ws),
            )[x] == (k0 + crate::graph::reg_keys_of(p, ws))[x] by {
                if x < base_len {
                    assert(flat_regs(plan.take(i), ws)[x] == flat_regs(
                        plan.take(i - 1),
                        ws,
                    )[x]);
                } else {
                    assert(flat_regs(plan.take(i), ws)[x] == decl_regs(p, ws)[x - base_len]);
                }
            }
        }
    }
}

/// The primary binding name the synthesizer gives the declaration at
/// plan position `i`: its construction statement binds this identifier.
pub open spec fn primary_name(
    plan: Seq<ProviderView>,
    i: int,
    fallible: bool,
    ws: Seq<Seq<char>>,
) -> Seq<char> {
    var_base_of(plan[i].ret) + seq!['_'] + dec_seq(
        run_steps(synth_init(), plan.take(i), fallible, ws).vars.len(),
    )
}

/// Primary binding names are pairwise distinct: under distinct
/// registration keys every binding is fresh, so the name counter grows
/// strictly along the plan, and two names with different counters can
/// never coincide.
pub proof fn lemma_primary_names_distinct(
    plan: Seq<ProviderView>,
    fallible: bool,
    ws: Seq<Seq<char>>,
)
    requires
        forall|k: Seq<char>| count_key(#[trigger] flat_regs(plan, ws), k) <= 1,
        run_steps(synth_init(), plan, fallible, ws).fault is None,
    ensures
        forall|i: int, j: int|
            0 <= i < j < plan.len() ==> primary_name(plan, i, fallible, ws) != primary_name(
                plan,
                j,
                fallible,
                ws,
            ),
{
    assert forall|i: int, j: int|
        0 <= i < j < plan.len() implies primary_name(plan, i, fallible, ws) != primary_name(
        plan,
        j,
        fallible,
        ws,
    ) by {
        lemma_vars_track_regs(plan, i, fallible, ws);
        lemma_vars_track_regs(plan, j, fallible, ws);
        lemma_flat_regs_len_mono(plan, i, j, ws);
        assert(vt_keys(run_steps(synth_init(), plan.take(i), fallible, ws).vars).len()
            == stream_keys(flat_regs(plan.take(i), ws)).len());
        assert(vt_keys(run_steps(synth_init(), plan.take(j), fallible, ws).vars).len()
            == stream_keys(flat_regs(plan.take(j), ws)).len());
        assert(run_steps(synth_init(), plan.take(i), fallible, ws).vars.len() == flat_regs(
            plan.take(i),
            ws,
        ).len());
        assert(run_steps(synth_init(), plan.take(j), fallible, ws).vars.len() == flat_regs(
            plan.take(j),
            ws,
        ).len());
        lemma_counter_names_differ(
            var_base_of(plan[i].ret),
            run_steps(synth_init(), plan.take(i), fallible, ws).vars.len(),
            var_base_of(plan[j].ret),
            run_steps(synth_init(), plan.take(j), fallible, ws).vars.len(),
        );
    }
}

/// Running a plan is running a prefix, then the rest.
pub proof fn lemma_run_steps_split(
    st: SynthState,
    plan: Seq<ProviderView>,
    i: int,
    fallible: bool,
    ws: Seq<Seq<char>>,
)
    requires
        0 <= i <= plan.len(),
    ensures
        run_steps(st, plan, fallible, ws) == run_steps(
            run_steps(st, plan.take(i), fallible, ws),
            plan.skip(i),
            fallible,
            ws,
        ),
    decreases i,
{
    if i == 0 {
        assert(plan.take(0) =~= Seq::<ProviderView>::empty());
        assert(plan.skip(0) =~= plan);
    } else {
        lemma_run_steps_split(st, plan, i - 1, fallible, ws);
        lemma_run_steps_snoc(st, plan.take(i - 1), plan[i - 1], fallible, ws);
        assert(plan.take(i - 1).push(plan[i - 1]) =~= plan.take(i));
        assert(plan.skip(i - 1).drop_first() =~= plan.skip(i));
        assert(plan.skip(i - 1)[0] == plan[i - 1]);
        assert(plan.skip(i - 1).len() > 0);
        assert(run_steps(
            run_steps(st, plan.take(i - 1), fallible, ws),
            plan.skip(i - 1),
            fallible,
            ws,
        ) == run_steps(
            synth_step(run_steps(st, plan.take(i - 1), fallible, ws), plan[i - 1], fallible, ws),
            plan.skip(i),
            fallible,
            ws,
        ));
    }
}

/// Running a plan extended by one declaration is one more step.
pub proof fn lemma_run_steps_snoc(
    st: SynthState,
    plan: Seq<ProviderView>,
    p: ProviderView,
    fallible: bool,
    ws: Seq<Seq<char>>,
)
    ensures
        run_steps(st, plan.push(p), fallible, ws) == synth_step(
            run_steps(st, plan, fallible, ws),
            p,
            fallible,
            ws,
        ),
    decreases plan.len(),
{
    reveal_with_fuel(run_steps, 3);
    if plan.len() == 0 {
        assert(plan.push(p)[0] == p);
        assert(plan.push(p).drop_first() =~= Seq::<ProviderView>::empty());
    } else {
        assert(plan.push(p)[0] == plan[0]);
        assert(plan.push(p).drop_first() =~= plan.drop_first().push(p));
        lemma_run_steps_snoc(
            synth_step(st, plan[0], fallible, ws),
            plan.drop_first(),
            p,
            fallible,
            ws,
        );
    }
}

/// Synthesize the generated function body for a resolved plan.
///
/// The result equals [`synth_spec`] on the plan's views: the statements
/// constructing every declaration in plan order, with ownership
/// adaptations, coercion bridges and bound-type bindings, closed by the
/// expression producing the target's variable. The first fault — a
/// fallible declaration feeding a non-fallible target, or a dependency
/// key with no bound variable — is returned instead.
///
/// The plan's registered keys must be distinct — what building the
/// graph without a conflict establishes. Under a duplicate key a later
/// declaration would replace an earlier binding and the name counter
/// would stall, so generated binding names could repeat.
#[verifier::loop_isolation(false)]
#[verifier::rlimit(100)]
pub fn generate(
    plan: &Vec<ProviderInfo>,
    target_key: &str,
    target_is_result: bool,
    wrappers: &Vec<String>,
) -> (r: Result<String, WireError>)
    requires
        forall|k: Seq<char>|
            count_key(#[trigger] regs_of(plan@, wrappers.deep_view()), k) <= 1,
    ensures
        match r {
            Ok(s) => synth_spec(
                plan_views(plan@),
                target_key@,
                target_is_result,
                wrappers.deep_view(),
            ) == Ok::<Seq<char>, FaultView>(s@),
            Err(e) => match e {
                WireError::Generation { fault } => synth_spec(
                    plan_views(plan@),
                    target_key@,
                    target_is_result,
                    wrappers.deep_view(),
                ) == Err::<Seq<char>, FaultView>(fault@),
                _ => false,
            },
        },
{
    let ghost ws = wrappers.deep_view();
    let ghost pv = plan_views(plan@);
    let ghost init = synth_init();
    let mut vars: Vec<(String, String, String)> = Vec::new();
    let mut body: Vec<char> = Vec::new();
    proof {
        assert(pv.take(0) =~= Seq::<ProviderView>::empty());
        assert(vt_view(vars@) =~= init.vars);
        assert(body@ =~= init.body);
    }
    let mut i: usize = 0;
    while i < plan.len()
        invariant
            i <= plan@.len(),
            ws == wrappers.deep_view(),
            pv == plan_views(plan@),
            init == synth_init(),
            run_steps(init, pv.take(i as int), target_is_result, ws) == (SynthState {
                vars: vt_view(vars@),
                body: body@,
                fault: None,
            }),
        decreases plan.len() - i,
    {
        let ghost st = run_steps(init, pv.take(i as int), target_is_result, ws);
        let ghost pview = pv[i as int];
        let p = &plan[i];
        proof {
            assert(pview == plan@[i as int]@);
            lemma_run_steps_snoc(init, pv.take(i as int), pview, target_is_result, ws);
            assert(pv.take(i as int).push(pview) =~= pv.take(i + 1));
        }
        let base = var_base(&p.ret);
        let mut name = Vec::<char>::new();
        push_all(&mut name, &base);
        name.push('_');
        let counter = dec_chars(vars.len());
        push_all(&mut name, &counter);
        proof {
            assert(name@ =~= var_base_of(pview.ret) + seq!['_'] + dec_seq(st.vars.len()));
        }
        let ghost body0 = body@;
        let mut tokens: Vec<Vec<char>> = Vec::new();
        let dyn_pat: Vec<char> = vec!['d', 'y', 'n'];
        proof {
            assert(dyn_pat@ =~= seq!['d', 'y', 'n']);
            assert(tokens_view(tokens@) =~= Seq::<Seq<char>>::empty());
            assert(pview.args.skip(0) =~= pview.args);
        }
        let mut j: usize = 0;
        while j < p.args.len()
            invariant
                j <= pview.args.len(),
                ws == wrappers.deep_view(),
                pv == plan_views(plan@),
                init == synth_init(),
                i < plan@.len(),
                p == &plan@[i as int],
                pview == plan@[i as int]@,
                st == run_steps(init, pv.take(i as int), target_is_result, ws),
                st.vars == vt_view(vars@),
                st.fault is None,
                dyn_pat@ == seq!['d', 'y', 'n'],
                pview.args.len() == p.args@.len(),
                do_args(st.vars, body0, Seq::empty(), pview.args, ws) == do_args(
                    st.vars,
                    body@,
                    tokens_view(tokens@),
                    pview.args.skip(j as int),
                    ws,
                ),
            decreases p.args.len() - j,
        {
            proof {
                assert(pview.args.skip(j as int)[0] == pview.args[j as int]);
                assert(pview.args.skip(j as int).drop_first() =~= pview.args.skip(j + 1));
                assert(pview.args[j as int] == p.args@[j as int]@);
            }
            let ghost arg = pview.args[j as int];
            let ghost body_pre = body@;
            let ghost toks_pre = tokens_view(tokens@);
            let ghost mut expected_view: Seq<char> = Seq::empty();
            let akey_n = normalize_type(p.args[j].lookup_ty().as_str(), wrappers);
            let akey = vt_resolve(&vars, &akey_n);
            match vt_lookup(&vars, &akey) {
                None => {
                    proof {
                        let stepped = synth_step(st, pview, target_is_result, ws);
                        assert(stepped.fault == Some(FaultView::Unbound(akey@)));
                        lemma_run_steps_split(init, pv, i + 1, target_is_result, ws);
                        lemma_fault_sticky(stepped, pv.skip(i + 1), target_is_result, ws);
                        assert(pv.take(plan@.len() as int) =~= pv);
                        assert(run_steps(init, pv, target_is_result, ws) == stepped);
                    }
                    return Err(
                        WireError::Generation {
                            fault: GenerationFault::UnboundDependency { key: akey },
                        },
                    );
                },
                Some(ix) => {
                    proof {
                        lemma_vt_find_props(vt_view(vars@), akey@);
                    }
                    let var_chars = str_to_chars(vars[ix].1.as_str());
                    let ptype_raw = str_to_chars(vars[ix].2.as_str());
                    let ptype = remove_char(&ptype_raw, ' ');
                    let aty_raw = str_to_chars(p.args[j].ty.as_str());
                    let aty = remove_char(&aty_raw, ' ');
                    let is_ref = aty.len() > 0 && aty[0] == '&';
                    let needs = wrap_mismatch_exec(&ptype, &aty, wrappers);
                    let bridged = !needs && !chars_eq(&ptype, &aty) && has_sub(&aty, &dyn_pat);
                    let fin: Vec<char> = if bridged {
                        let mut bname = Vec::<char>::new();
                        push_all(&mut bname, &var_chars);
                        push_lit(&mut bname, "_bridge_");
                        let cnt = dec_chars(tokens.len());
                        push_all(&mut bname, &cnt);
                        proof {
                            assert(bname@ =~= vt_view(vars@)[ix as int].1 + "_bridge_"@
                                + dec_seq(tokens_view(tokens@).len()));
                        }
                        let expected: Vec<char> = if is_ref {
                            if aty_raw.len() >= 1 {
                                let e = sub_vec(&aty_raw, 1, aty_raw.len());
                                proof {
                                    assert(e@ =~= aty_raw@.skip(1));
                                }
                                e
                            } else {
                                proof {
                                    assert(aty_raw@.skip(1) =~= aty_raw@);
                                }
                                aty_raw
                            }
                        } else {
                            aty_raw
                        };
                        proof {
                            expected_view = expected@;
                        }
                        push_lit(&mut body, "let ");
                        push_all(&mut body, &bname);
                        push_lit(&mut body, ": ");
                        push_all(&mut body, &expected);
                        push_lit(&mut body, " = ");
                        push_all(&mut body, &var_chars);
                        push_lit(&mut body, ".clone();\n");
                        bname
                    } else {
                        var_chars
                    };
                    let mut tk = Vec::<char>::new();
                    if is_ref {
                        if needs {
                            push_all(&mut tk, &fin);
                            push_lit(&mut tk, ".as_ref()");
                        } else {
                            tk.push('&');
                            push_all(&mut tk, &fin);
                        }
                    } else {
                        if needs {
                            push_all(&mut tk, &fin);
                            push_lit(&mut tk, ".as_ref().clone()");
                        } else {
                            push_all(&mut tk, &fin);
                            push_lit(&mut tk, ".clone()");
                        }
                    }
                    proof {
                        assert(tk@ == render_token(fin@, is_ref, needs));
                    }
                    tokens.push(tk);
                    proof {
                        assert(tokens_view(tokens@) =~= toks_pre.push(tk@));
                        assert(arg_lookup_ty(arg) == p.args@[j as int].spec_lookup_ty());
                        assert(akey@ == vt_resolve_key(st.vars, spec_normalize(
                            arg_lookup_ty(arg),
                            ws,
                        )));
                        assert(vt_find(st.vars, akey@) == Some(ix as int));
                        assert(var_chars@ == st.vars[ix as int].1);
                        assert(ptype@ == spec_replace(st.vars[ix as int].2, seq![' '], Seq::empty()));
                        assert(aty_raw@ == arg.ty);
                        assert(aty@ == spec_replace(arg.ty, seq![' '], Seq::empty()));
                        assert(is_ref == (aty@.len() > 0 && aty@[0] == '&'));
                        if bridged {
                            assert(fin@ == st.vars[ix as int].1 + "_bridge_"@ + dec_seq(
                                toks_pre.len(),
                            ));
                            if is_ref {
                                assert(expected_view == arg.ty.skip(1));
                            } else {
                                assert(expected_view == arg.ty);
                            }
                            assert(body@ =~= body_pre + ("let "@ + fin@ + ": "@ + expected_view
                                + " = "@ + st.vars[ix as int].1 + ".clone();\n"@));
                        } else {
                            assert(body@ == body_pre);
                        }
                        assert(do_arg(st.vars, body_pre, toks_pre, arg, ws) == (
                            body@,
                            tokens_view(tokens@),
                            None::<FaultView>,
                        ));
                        assert(do_args(st.vars, body_pre, toks_pre, pview.args.skip(j as int), ws)
                            == do_args(
                            st.vars,
                            body@,
                            tokens_view(tokens@),
                            pview.args.skip(j + 1),
                            ws,
                        ));
                    }
                },
            }
            j = j + 1;
        }
        proof {
            assert(pview.args.skip(j as int) =~= Seq::<ArgView>::empty());
        }
        if p.is_result && !target_is_result {
            proof {
                let stepped = synth_step(st, pview, target_is_result, ws);
                assert(stepped.fault == Some(FaultView::Fallible(pview.path)));
                lemma_run_steps_split(init, pv, i + 1, target_is_result, ws);
                lemma_fault_sticky(stepped, pv.skip(i + 1), target_is_result, ws);
                assert(pv.take(plan@.len() as int) =~= pv);
            }
            return Err(
                WireError::Generation {
                    fault: GenerationFault::FallibleProvider { path: p.path.clone() },
                },
            );
        }
        let joined = join_vec(&tokens, ", ");
        push_lit(&mut body, "let ");
        push_all(&mut body, &name);
        push_lit(&mut body, " = ");
        let path_chars = str_to_chars(p.path.as_str());
        push_all(&mut body, &path_chars);
        body.push('(');
        push_all(&mut body, &joined);
        body.push(')');
        if p.is_result {
            body.push('?');
        }
        push_lit(&mut body, ";\n");
        let ret_key = normalize_type(p.ret.as_str(), wrappers);
        let name_s = chars_to_string(&name);
        vt_insert(&mut vars, ret_key, name_s, p.ret.clone());
        let ghost after_args = do_args(st.vars, body0, Seq::empty(), pview.args, ws);
        proof {
            assert(body@ =~= after_args.0 + ("let "@ + name@ + " = "@ + pview.path + seq!['(']
                + join_tokens(after_args.1, ", "@) + seq![')'] + (if pview.is_result {
                seq!['?']
            } else {
                Seq::<char>::empty()
            }) + ";\n"@));
        }
        let ghost vars1 = vt_view(vars@);
        let ghost body1 = body@;
        proof {
            assert(pview.bindings.skip(0) =~= pview.bindings);
        }
        let mut k: usize = 0;
        while k < p.bindings.len()
            invariant
                k <= pview.bindings.len(),
                ws == wrappers.deep_view(),
                pv == plan_views(plan@),
                init == synth_init(),
                i < plan@.len(),
                p == &plan@[i as int],
                pview == plan@[i as int]@,
                pview.bindings.len() == p.bindings@.len(),
                name@ == var_base_of(pview.ret) + seq!['_'] + dec_seq(st.vars.len()),
                base@ == var_base_of(pview.ret),
                st == run_steps(init, pv.take(i as int), target_is_result, ws),
                do_bindings(vars1, body1, pview.bindings, base@, name@, ws) == do_bindings(
                    vt_view(vars@),
                    body@,
                    pview.bindings.skip(k as int),
                    base@,
                    name@,
                    ws,
                ),
            decreases p.bindings.len() - k,
        {
            proof {
                assert(pview.bindings.skip(k as int)[0] == pview.bindings[k as int]);
                assert(pview.bindings.skip(k as int).drop_first() =~= pview.bindings.skip(k + 1));
                assert(pview.bindings[k as int] == p.bindings@[k as int]@);
            }
            let ghost vars_pre = vt_view(vars@);
            let ghost body_pre2 = body@;
            let b = &p.bindings[k];
            let bkey = normalize_type(b.as_str(), wrappers);
            let bkey_chars = str_to_chars(bkey.as_str());
            let mut bname = Vec::<char>::new();
            push_all(&mut bname, &base);
            push_lit(&mut bname, "_as_");
            push_all(&mut bname, &bkey_chars);
            proof {
                assert(bname@ =~= base@ + "_as_"@ + spec_normalize(pview.bindings[k as int], ws));
            }
            let b_chars = str_to_chars(b.as_str());
            push_lit(&mut body, "let ");
            push_all(&mut body, &bname);
            push_lit(&mut body, ": ");
            push_all(&mut body, &b_chars);
            push_lit(&mut body, " = ");
            push_all(&mut body, &name);
            push_lit(&mut body, ".clone();\n");
            let bname_s = chars_to_string(&bname);
            vt_insert(&mut vars, bkey, bname_s, b.clone());
            proof {
                let bv = pview.bindings[k as int];
                let bkey_g = spec_normalize(bv, ws);
                let bname_g = base@ + "_as_"@ + bkey_g;
                assert(vt_view(vars@) == vt_set(vars_pre, bkey_g, bname_g, bv));
                assert(body@ =~= body_pre2 + ("let "@ + bname_g + ": "@ + bv + " = "@ + name@
                    + ".clone();\n"@));
                assert(do_bindings(vars_pre, body_pre2, pview.bindings.skip(k as int), base@, name@, ws)
                    == do_bindings(
                    vt_view(vars@),
                    body@,
                    pview.bindings.skip(k + 1),
                    base@,
                    name@,
                    ws,
                ));
            }
            k = k + 1;
        }
        proof {
            assert(pview.bindings.skip(k as int) =~= Seq::<Seq<char>>::empty());
            let stepped = synth_step(st, pview, target_is_result, ws);
            assert(stepped.vars == vt_view(vars@));
            assert(stepped.body == body@);
            assert(stepped.fault is None);
        }
        i = i + 1;
    }
    proof {
        assert(pv.take(plan@.len() as int) =~= pv);
    }
    let ghost st_final = run_steps(init, pv, target_is_result, ws);
    let t_owned = target_key.to_owned();
    let tk = vt_resolve(&vars, &t_owned);
    match vt_lookup(&vars, &tk) {
        None => Err(
            WireError::Generation { fault: GenerationFault::UnboundDependency { key: tk } },
        ),
        Some(ix) => {
            proof {
                lemma_vt_find_props(vt_view(vars@), tk@);
            }
            let var_chars = str_to_chars(vars[ix].1.as_str());
            if target_is_result {
                push_lit(&mut body, "Ok(");
                push_all(&mut body, &var_chars);
                body.push(')');
            } else {
                push_all(&mut body, &var_chars);
            }
            proof {
                assert(body@ =~= st_final.body + (if target_is_result {
                    "Ok("@ + st_final.vars[ix as int].1 + seq![')']
                } else {
                    st_final.vars[ix as int].1
                }));
            }
            Ok(chars_to_string(&body))
        },
    }
}

} // verus!
