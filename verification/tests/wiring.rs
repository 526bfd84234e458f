// End-to-end tests of the wiring generator: key normalization, graph
// building, resolution, synthesis and the scanned-signature pipeline.

use wire::errors::{GenerationFault, WireError};
use wire::generator::generate;
use wire::graph::Graph;
use wire::keys::{is_match, normalize_type};
use wire::models::{ProviderArgument, ProviderInfo};

fn arg(ty: &str) -> ProviderArgument {
    ProviderArgument { name: String::from("x"), ty: String::from(ty), from: None }
}

fn provider(path: &str, args: Vec<&str>, ret: &str) -> ProviderInfo {
    ProviderInfo {
        path: String::from(path),
        args: args.into_iter().map(arg).collect(),
        ret: String::from(ret),
        is_result: false,
        bindings: Vec::new(),
    }
}

fn wrappers(names: Vec<&str>) -> Vec<String> {
    names.into_iter().map(String::from).collect()
}

#[test]
fn normalize_strips_nested_wrappers() {
    let ws = wrappers(vec!["SharedPtr", "Box"]);
    let a = normalize_type("SharedPtr<Box<Config>>", &ws);
    let b = normalize_type("SharedPtr<Config>", &ws);
    let c = normalize_type("Config", &ws);
    assert_eq!(a, "config");
    assert_eq!(a, b);
    assert_eq!(b, c);
}

#[test]
fn normalize_handles_sigils_paths_and_dyn() {
    let ws = wrappers(vec!["Arc"]);
    assert_eq!(normalize_type("&Arc<crate::db::Pool>", &ws), "crate_db_pool");
    assert_eq!(normalize_type("Arc<dyn Repository>", &ws), "repository");
    assert_eq!(normalize_type("(A, B)", &wrappers(vec![])), "_a_b_");
    assert_eq!(normalize_type("Vec < u8 >", &wrappers(vec![])), "vec_u8_");
}

#[test]
fn normalize_strips_lifetime_annotations() {
    let ws = wrappers(vec![]);
    assert_eq!(normalize_type("&'a Config", &ws), "config");
    assert_eq!(normalize_type("&'a Config", &ws), normalize_type("Config", &ws));
    assert_eq!(normalize_type("&'static str", &ws), "str");
    assert_eq!(normalize_type("Ref<'a, Pool>", &ws), "ref__pool_");
}

#[test]
fn fuzzy_match_accepts_suffix_with_separator() {
    assert!(is_match("crate_db_pool", "pool"));
    assert!(is_match("pool", "pool"));
    assert!(!is_match("crate_db_pool", "ool"));
    assert!(!is_match("a_pool", "b_pool"));
}

#[test]
fn linear_chain_resolves_in_dependency_order() {
    let providers = vec![
        provider("crate::config::provide_config", vec![], "Config"),
        provider("crate::db::provide_pool", vec!["&Config"], "Pool"),
    ];
    let ws = wrappers(vec![]);
    let graph = Graph::new(&providers, &ws).expect("no conflicts");
    let plan = graph.resolve("pool").expect("resolvable");
    let paths: Vec<&str> = plan.iter().map(|p| p.path.as_str()).collect();
    assert_eq!(paths, vec!["crate::config::provide_config", "crate::db::provide_pool"]);

    let code = generate(&plan, "pool", false, &ws).expect("generates");
    let config_idx = code.find("crate::config::provide_config(").expect("config call");
    let pool_idx = code.find("crate::db::provide_pool(").expect("pool call");
    assert!(config_idx < pool_idx);
    assert!(code.contains("let config_0 = crate::config::provide_config();"));
    assert!(code.contains("let pool_1 = crate::db::provide_pool(&config_0);"));
    assert!(code.trim_end().ends_with("pool_1"));
}

#[test]
fn diamond_dependency_resolves_shared_node_once() {
    let providers = vec![
        provider("crate::c", vec![], "C"),
        provider("crate::a", vec!["&C"], "A"),
        provider("crate::b", vec!["&C"], "B"),
        provider("crate::app", vec!["&A", "&B"], "App"),
    ];
    let ws = wrappers(vec![]);
    let graph = Graph::new(&providers, &ws).expect("no conflicts");
    let plan = graph.resolve("app").expect("resolvable");
    let paths: Vec<&str> = plan.iter().map(|p| p.path.as_str()).collect();
    let c_count = paths.iter().filter(|p| **p == "crate::c").count();
    assert_eq!(c_count, 1);
    let pos = |needle: &str| paths.iter().position(|p| *p == needle).unwrap();
    assert!(pos("crate::c") < pos("crate::a"));
    assert!(pos("crate::c") < pos("crate::b"));
    assert!(pos("crate::a") < pos("crate::app"));
    assert!(pos("crate::b") < pos("crate::app"));
    assert_eq!(paths.len(), 4);
}

#[test]
fn cycle_is_reported_with_both_paths() {
    let providers = vec![
        provider("crate::a", vec!["&B"], "A"),
        provider("crate::b", vec!["&A"], "B"),
    ];
    let ws = wrappers(vec![]);
    let graph = Graph::new(&providers, &ws).expect("no conflicts");
    match graph.resolve("a") {
        Err(WireError::Cycle { chain }) => {
            assert!(chain.iter().any(|p| p == "crate::a"));
            assert!(chain.iter().any(|p| p == "crate::b"));
        },
        other => panic!("expected a cycle, got {:?}", other),
    }
}

#[test]
fn missing_provider_lists_requested_and_available_keys() {
    let providers = vec![provider("crate::config", vec![], "Config")];
    let ws = wrappers(vec![]);
    let graph = Graph::new(&providers, &ws).expect("no conflicts");
    match graph.resolve("pool") {
        Err(WireError::NotFound { requested, available }) => {
            assert_eq!(requested, "pool");
            assert_eq!(available, vec![String::from("config")]);
        },
        other => panic!("expected not-found, got {:?}", other),
    }
}

#[test]
fn missing_dependency_lists_requested_and_available_keys() {
    let providers = vec![provider("crate::pool", vec!["&Config"], "Pool")];
    let ws = wrappers(vec![]);
    let graph = Graph::new(&providers, &ws).expect("no conflicts");
    match graph.resolve("pool") {
        Err(WireError::NotFound { requested, available }) => {
            assert_eq!(requested, "config");
            assert_eq!(available, vec![String::from("pool")]);
        },
        other => panic!("expected not-found, got {:?}", other),
    }
}

#[test]
fn duplicate_registration_is_a_conflict_listing_all_paths() {
    let providers = vec![
        provider("crate::a::make", vec![], "Foo"),
        provider("crate::b::make", vec![], "Foo"),
    ];
    let ws = wrappers(vec![]);
    match Graph::new(&providers, &ws) {
        Err(WireError::Conflict { entries }) => {
            assert_eq!(entries.len(), 1);
            assert_eq!(entries[0].key, "foo");
            assert_eq!(
                entries[0].paths,
                vec![String::from("crate::a::make"), String::from("crate::b::make")]
            );
        },
        other => panic!("expected a conflict, got {:?}", other),
    }
}

#[test]
fn own_binding_sharing_the_output_key_is_not_a_conflict() {
    let mut p = provider("crate::svc", vec![], "Impl");
    p.bindings.push(String::from("Impl"));
    let ws = wrappers(vec![]);
    let graph = Graph::new(&vec![p], &ws).expect("one declaration registers a key once");
    assert_eq!(graph.nodes.len(), 1);
    let plan = graph.resolve("impl").expect("resolvable");
    assert_eq!(plan.len(), 1);
    let code = generate(&plan, "impl", false, &ws).expect("generates");
    assert!(code.contains("let impl_0 = crate::svc();"));
    assert!(code.contains("let impl_as_impl: Impl = impl_0.clone();"));
    assert!(code.trim_end().ends_with("impl_as_impl"));
}

#[test]
fn bound_interface_gets_a_coercion_binding() {
    let mut svc = provider("crate::svc", vec![], "Impl");
    svc.bindings.push(String::from("dyn Interface"));
    let consumer = provider("crate::consumer", vec!["&dyn Interface"], "App");
    let providers = vec![svc, consumer];
    let ws = wrappers(vec![]);
    let graph = Graph::new(&providers, &ws).expect("no conflicts");
    let plan = graph.resolve("app").expect("resolvable");
    let paths: Vec<&str> = plan.iter().map(|p| p.path.as_str()).collect();
    assert!(paths.contains(&"crate::svc"));
    let code = generate(&plan, "app", false, &ws).expect("generates");
    assert!(code.contains("let impl_as_interface: dyn Interface = impl_0.clone();"));
    assert!(code.contains("crate::consumer("));
}

#[test]
fn ownership_adaptation_dereferences_wrapped_values() {
    let providers = vec![
        provider("crate::provide_pool", vec![], "Arc<Pool>"),
        provider("crate::provide_svc", vec!["&Pool"], "Svc"),
    ];
    let ws = wrappers(vec!["Arc"]);
    let graph = Graph::new(&providers, &ws).expect("no conflicts");
    let plan = graph.resolve("svc").expect("resolvable");
    let code = generate(&plan, "svc", false, &ws).expect("generates");
    assert!(code.contains("let arc_0 = crate::provide_pool();"));
    assert!(code.contains("crate::provide_svc(arc_0.as_ref())"));
}

#[test]
fn fallible_provider_needs_fallible_target() {
    let mut pool = provider("crate::provide_pool", vec![], "Pool");
    pool.is_result = true;
    let providers = vec![pool];
    let ws = wrappers(vec![]);
    let graph = Graph::new(&providers, &ws).expect("no conflicts");
    let plan = graph.resolve("pool").expect("resolvable");
    match generate(&plan, "pool", false, &ws) {
        Err(WireError::Generation { fault: GenerationFault::FallibleProvider { path } }) => {
            assert_eq!(path, "crate::provide_pool");
        },
        other => panic!("expected a generation fault, got {:?}", other),
    }
    let code = generate(&plan, "pool", true, &ws).expect("generates");
    assert!(code.contains("let pool_0 = crate::provide_pool()?;"));
    assert!(code.trim_end().ends_with("Ok(pool_0)"));
}

#[test]
fn unbound_dependency_is_a_generation_fault() {
    let plan = vec![provider("crate::pool", vec!["&Config"], "Pool")];
    let ws = wrappers(vec![]);
    match generate(&plan, "pool", false, &ws) {
        Err(WireError::Generation { fault: GenerationFault::UnboundDependency { key } }) => {
            assert_eq!(key, "config");
        },
        other => panic!("expected an unbound dependency, got {:?}", other),
    }
}

#[test]
fn fuzzy_target_resolves_against_qualified_key() {
    let providers = vec![provider("crate::db::provide", vec![], "crate::db::Pool")];
    let ws = wrappers(vec![]);
    let graph = Graph::new(&providers, &ws).expect("no conflicts");
    let plan = graph.resolve("pool").expect("fuzzy target resolves");
    assert_eq!(plan.len(), 1);
    assert_eq!(plan[0].path, "crate::db::provide");
}

#[test]
fn override_type_redirects_the_lookup() {
    let mut consumer = provider("crate::consumer", vec![], "App");
    consumer.args.push(ProviderArgument {
        name: String::from("repo"),
        ty: String::from("&Repo"),
        from: Some(String::from("MockRepo")),
    });
    let providers = vec![
        provider("crate::mock", vec![], "MockRepo"),
        consumer,
    ];
    let ws = wrappers(vec![]);
    let graph = Graph::new(&providers, &ws).expect("no conflicts");
    let plan = graph.resolve("app").expect("resolvable");
    let paths: Vec<&str> = plan.iter().map(|p| p.path.as_str()).collect();
    assert_eq!(paths, vec!["crate::mock", "crate::consumer"]);
}

#[test]
fn lifetime_annotated_dependency_resolves() {
    let providers = vec![
        provider("crate::config", vec![], "Config"),
        provider("crate::svc", vec!["&'a Config"], "Svc"),
    ];
    let ws = wrappers(vec![]);
    let graph = Graph::new(&providers, &ws).expect("no conflicts");
    let plan = graph.resolve("svc").expect("lifetime does not hide the dependency");
    let paths: Vec<&str> = plan.iter().map(|p| p.path.as_str()).collect();
    assert_eq!(paths, vec!["crate::config", "crate::svc"]);
    let code = generate(&plan, "svc", false, &ws).expect("generates");
    assert!(code.contains("crate::svc(&config_0)"));
}
