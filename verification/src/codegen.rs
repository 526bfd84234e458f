//! The whole pipeline's back half: order scanned providers, synthesize
//! the wiring function.

use vstd::prelude::*;

use crate::errors::{ConflictEntry, WireError};
use crate::generator::{generate, synth_spec, FaultView};
use crate::graph::{count_key, flat_regs, paths_for, regs_of, views_of, Graph};
use crate::keys::{normalize_type, spec_normalize};
use crate::models::{ProviderArgument, ProviderInfo, ProviderView};
use crate::resolve::plan_views;
use crate::signature::ProviderSignature;
use crate::solve::{solve_ok, DependencyGraph};
use crate::strutil::{chars_to_string, push_all, str_to_chars};

verus! {

/// The declaration a scanned signature induces: its full path called
/// with one anonymous argument per bare input type, producing its
/// output type, with no extra bound types.
pub open spec fn info_of_signature(s: ProviderSignature) -> ProviderView {
    ProviderView {
        path: s@.full_path,
        args: Seq::new(
            s@.stripped_inputs.len(),
            |i: int|
                crate::models::ArgView {
                    name: Seq::empty(),
                    ty: s@.stripped_inputs[i],
                    from: None,
                },
        ),
        ret: s@.output_type,
        is_result: s@.is_result,
        bindings: Seq::empty(),
    }
}

/// The declarations a scanned signature list induces, in order.
pub open spec fn infos_of_signatures(ss: Seq<ProviderSignature>) -> Seq<ProviderView> {
    Seq::new(ss.len(), |i: int| info_of_signature(ss[i]))
}

/// Convert scanned signatures into provider declarations.
#[verifier::loop_isolation(false)]
fn signatures_to_infos(ss: &Vec<ProviderSignature>) -> (r: Vec<ProviderInfo>)
    ensures
        plan_views(r@) == infos_of_signatures(ss@),
{
    let mut r: Vec<ProviderInfo> = Vec::new();
    let mut i: usize = 0;
    while i < ss.len()
        invariant
            i <= ss@.len(),
            r@.len() == i,
            forall|j: int| 0 <= j < i ==> (#[trigger] r@[j])@ == info_of_signature(ss@[j]),
        decreases ss.len() - i,
    {
        let s = &ss[i];
        let mut args: Vec<ProviderArgument> = Vec::new();
        let mut t: usize = 0;
        while t < s.stripped_inputs.len()
            invariant
                t <= s.stripped_inputs@.len(),
                args@.len() == t,
                forall|u: int|
                    0 <= u < t ==> (#[trigger] args@[u])@ == (crate::models::ArgView {
                        name: Seq::empty(),
                        ty: s@.stripped_inputs[u],
                        from: None,
                    }),
            decreases s.stripped_inputs.len() - t,
        {
            let arg = ProviderArgument {
                name: String::new(),
                ty: s.stripped_inputs[t].clone(),
                from: None,
            };
            args.push(arg);
            t = t + 1;
        }
        let info = ProviderInfo {
            path: s.full_path.clone(),
            args,
            ret: s.output_type.clone(),
            is_result: s.is_result,
            bindings: Vec::new(),
        };
        proof {
            assert(info@.args =~= info_of_signature(ss@[i as int]).args);
            assert(info@.bindings =~= info_of_signature(ss@[i as int]).bindings);
        }
        r.push(info);
        i = i + 1;
    }
    proof {
        assert(plan_views(r@) =~= infos_of_signatures(ss@));
    }
    r
}

/// The conflict report for the declarations a sorted signature list
/// induces: every entry names a key registered at least twice together
/// with every registering path; every doubly registered key is
/// reported; reported keys are distinct.
pub open spec fn conversion_conflict(
    sorted: Seq<ProviderSignature>,
    entries: Seq<ConflictEntry>,
) -> bool {
    &&& entries.len() >= 1
    &&& forall|j: int|
        0 <= j < entries.len() ==> count_key(
            flat_regs(infos_of_signatures(sorted), Seq::empty()),
            (#[trigger] entries[j]).key@,
        ) >= 2 && entries[j].paths.deep_view() == paths_for(
            flat_regs(infos_of_signatures(sorted), Seq::empty()),
            entries[j].key@,
        )
    &&& forall|k: Seq<char>|
        #[trigger] count_key(flat_regs(infos_of_signatures(sorted), Seq::empty()), k) >= 2
            ==> exists|j: int| 0 <= j < entries.len() && entries[j].key@ == k
    &&& forall|j1: int, j2: int|
        0 <= j1 < j2 < entries.len() ==> entries[j1].key@ != entries[j2].key@
}

/// What the generated wiring function's text is, around a synthesized
/// body.
pub open spec fn wrap_fn_text(injector_fn: Seq<char>, target: Seq<char>, body: Seq<char>)
    -> Seq<char> {
    "pub fn "@ + injector_fn + "() -> "@ + target + " {\n"@ + body + "\n}\n"@
}

/// Order the scanned providers and synthesize the wiring function for
/// the target type.
///
/// The providers are arranged producer-first by [`DependencyGraph::solve`];
/// their induced declarations are checked for duplicate registrations,
/// as building the graph would check them; the function body is then
/// synthesized for the normalized target key (with no ownership
/// wrappers configured and a non-fallible target) and wrapped into a
/// function named `injector_fn` returning `target_type`. An ordering
/// cycle, a duplicate registration or a synthesis fault is returned as
/// its structured diagnostic.
pub fn generate_code(providers: Vec<ProviderSignature>, target_type: &str, injector_fn: &str)
    -> (r: Result<String, WireError>)
    requires
        providers@.len() < 0xffff,
        forall|i: int|
            0 <= i < providers@.len() ==> (#[trigger] providers@[i])@.stripped_inputs.len()
                < 0xffff,
    ensures
        match r {
            Ok(code) => exists|sorted: Seq<ProviderSignature>|
                {
                    &&& #[trigger] solve_ok(providers@, sorted)
                    &&& exists|body: Seq<char>|
                        synth_spec(
                            infos_of_signatures(sorted),
                            spec_normalize(target_type@, Seq::empty()),
                            false,
                            Seq::empty(),
                        ) == Ok::<Seq<char>, FaultView>(body) && code@ == #[trigger] wrap_fn_text(
                            injector_fn@,
                            target_type@,
                            body,
                        )
                },
            Err(e) => match e {
                WireError::Cycle { chain } => crate::solve::rel_has_cycle(
                    crate::solve::sig_edges(providers@),
                    providers@.len() as nat,
                ) && (forall|x: int|
                    0 <= x < chain@.len() ==> crate::solve::chain_entry_ok(
                        providers@,
                        #[trigger] chain@[x],
                    )) && crate::solve::chain_complete(providers@, chain@),
                WireError::Generation { fault } => exists|sorted: Seq<ProviderSignature>|
                    #[trigger] solve_ok(providers@, sorted) && synth_spec(
                        infos_of_signatures(sorted),
                        spec_normalize(target_type@, Seq::empty()),
                        false,
                        Seq::empty(),
                    ) == Err::<Seq<char>, FaultView>(fault@),
                WireError::Conflict { entries } => exists|sorted: Seq<ProviderSignature>|
                    #[trigger] solve_ok(providers@, sorted) && conversion_conflict(
                        sorted,
                        entries@,
                    ),
                _ => false,
            },
        },
{
    let ghost providers0 = providers@;
    let sorted = match DependencyGraph::solve(providers) {
        Ok(s) => s,
        Err(e) => {
            return Err(e);
        },
    };
    let plan = signatures_to_infos(&sorted);
    let wrappers: Vec<String> = Vec::new();
    proof {
        assert(wrappers.deep_view() =~= Seq::<Seq<char>>::empty());
        assert(plan_views(plan@) == infos_of_signatures(sorted@));
        assert(views_of(plan@) =~= infos_of_signatures(sorted@));
    }
    match Graph::new(&plan, &wrappers) {
        Ok(_) => {},
        Err(e) => {
            proof {
                assert(solve_ok(providers0, sorted@));
                match &e {
                    WireError::Conflict { entries } => {
                        assert(regs_of(plan@, wrappers.deep_view()) == flat_regs(
                            infos_of_signatures(sorted@),
                            Seq::empty(),
                        ));
                        assert(conversion_conflict(sorted@, entries@));
                    },
                    _ => {},
                }
            }
            return Err(e);
        },
    }
    proof {
        assert forall|k: Seq<char>|
            count_key(#[trigger] regs_of(plan@, wrappers.deep_view()), k) <= 1 by {
            if count_key(regs_of(plan@, wrappers.deep_view()), k) >= 2 {
            }
        }
    }
    let target_key = normalize_type(target_type, &wrappers);
    match generate(&plan, target_key.as_str(), false, &wrappers) {
        Ok(body) => {
            let mut out = str_to_chars("pub fn ");
            let inj = str_to_chars(injector_fn);
            push_all(&mut out, &inj);
            push_all(&mut out, &str_to_chars("() -> "));
            let tgt = str_to_chars(target_type);
            push_all(&mut out, &tgt);
            push_all(&mut out, &str_to_chars(" {\n"));
            let body_chars = str_to_chars(body.as_str());
            push_all(&mut out, &body_chars);
            push_all(&mut out, &str_to_chars("\n}\n"));
            let code = chars_to_string(&out);
            proof {
                assert(code@ =~= wrap_fn_text(injector_fn@, target_type@, body@));
                assert(solve_ok(providers0, sorted@));
                assert(synth_spec(
                    infos_of_signatures(sorted@),
                    spec_normalize(target_type@, Seq::empty()),
                    false,
                    Seq::empty(),
                ) == Ok::<Seq<char>, FaultView>(body@));
            }
            Ok(code)
        },
        Err(e) => {
            proof {
                assert(solve_ok(providers0, sorted@));
            }
            Err(e)
        },
    }
}

} // verus!
