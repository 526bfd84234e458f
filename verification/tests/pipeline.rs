// Tests of the scanned-signature pipeline: whole-set ordering, code
// generation, the scanner walk, the locator and the import mapper.

use wire::codegen::generate_code;
use wire::errors::WireError;
use wire::import::ImportMapper;
use wire::locator::FileLocator;
use wire::scanner::Scanner;
use wire::signature::ProviderSignature;
use wire::solve::DependencyGraph;

fn sig(full_path: &str, name: &str, inputs: Vec<&str>, output: &str) -> ProviderSignature {
    ProviderSignature {
        full_path: String::from(full_path),
        name: String::from(name),
        inputs: inputs.iter().map(|s| format!("x: &{}", s)).collect(),
        stripped_inputs: inputs.into_iter().map(String::from).collect(),
        output_type: String::from(output),
        is_result: false,
    }
}

fn chain_sigs() -> Vec<ProviderSignature> {
    vec![
        sig("crate::service::provide_service", "provide_service", vec!["crate::db::Database"], "crate::service::Service"),
        sig("crate::config::provide_config", "provide_config", vec![], "crate::config::Config"),
        sig("crate::db::provide_database", "provide_database", vec!["crate::config::Config"], "crate::db::Database"),
        sig("crate::app::init_app", "init_app", vec!["crate::service::Service"], "crate::app::App"),
    ]
}

#[test]
fn solve_orders_producers_before_consumers() {
    let sorted = DependencyGraph::solve(chain_sigs()).expect("acyclic");
    let names: Vec<&str> = sorted.iter().map(|s| s.name.as_str()).collect();
    let pos = |needle: &str| names.iter().position(|n| *n == needle).unwrap();
    assert_eq!(names.len(), 4);
    assert!(pos("provide_config") < pos("provide_database"));
    assert!(pos("provide_database") < pos("provide_service"));
    assert!(pos("provide_service") < pos("init_app"));
}

#[test]
fn solve_reports_cycle_members() {
    let providers = vec![
        sig("crate::a::provide_a", "provide_a", vec!["crate::b::B"], "crate::a::A"),
        sig("crate::b::provide_b", "provide_b", vec!["crate::a::A"], "crate::b::B"),
        sig("crate::app::provide_app", "provide_app", vec!["crate::a::A"], "crate::app::App"),
    ];
    match DependencyGraph::solve(providers) {
        Err(WireError::Cycle { chain }) => {
            assert!(chain.iter().any(|n| n == "crate::a::provide_a"));
            assert!(chain.iter().any(|n| n == "crate::b::provide_b"));
            assert!(!chain.iter().any(|n| n == "crate::app::provide_app"));
        },
        other => panic!("expected a cycle, got {:?}", other),
    }
}

#[test]
fn solve_reports_self_loop() {
    let providers = vec![
        sig("crate::a::provide_a", "provide_a", vec!["crate::a::A"], "crate::a::A"),
    ];
    match DependencyGraph::solve(providers) {
        Err(WireError::Cycle { chain }) => {
            assert_eq!(chain, vec![String::from("crate::a::provide_a")]);
        },
        other => panic!("expected a cycle, got {:?}", other),
    }
}

#[test]
fn generate_code_emits_the_wiring_function() {
    let code = generate_code(chain_sigs(), "crate::app::App", "init_injector")
        .expect("generates");
    assert!(code.starts_with("pub fn init_injector() -> crate::app::App {"));
    let config_idx = code.find("crate::config::provide_config(").expect("config call");
    let db_idx = code.find("crate::db::provide_database(").expect("database call");
    let service_idx = code.find("crate::service::provide_service(").expect("service call");
    let app_idx = code.find("crate::app::init_app(").expect("app call");
    assert!(config_idx < db_idx);
    assert!(db_idx < service_idx);
    assert!(service_idx < app_idx);
}

#[test]
fn generate_code_reports_cycles() {
    let providers = vec![
        sig("crate::a::provide_a", "provide_a", vec!["crate::b::B"], "crate::a::A"),
        sig("crate::b::provide_b", "provide_b", vec!["crate::a::A"], "crate::b::B"),
    ];
    match generate_code(providers, "crate::a::A", "init") {
        Err(WireError::Cycle { chain }) => {
            assert!(chain.len() >= 2);
        },
        other => panic!("expected a cycle, got {:?}", other),
    }
}

#[test]
fn locator_walks_module_paths() {
    let locator = FileLocator::new(String::from("proj"));
    let files = vec![
        String::from("proj/src/lib.rs"),
        String::from("proj/src/db.rs"),
        String::from("proj/src/services/mod.rs"),
        String::from("proj/src/services/user.rs"),
    ];
    let dirs = vec![String::from("proj/src/services")];
    assert_eq!(
        locator.resolve_to_file("crate::db::Pool", &files, &dirs),
        Some(String::from("proj/src/db.rs"))
    );
    assert_eq!(
        locator.resolve_to_file("crate::services", &files, &dirs),
        Some(String::from("proj/src/services/mod.rs"))
    );
    assert_eq!(
        locator.resolve_to_file("crate::services::user::UserService", &files, &dirs),
        Some(String::from("proj/src/services/user.rs"))
    );
    assert_eq!(
        locator.resolve_to_file("crate::Top", &files, &dirs),
        Some(String::from("proj/src/lib.rs"))
    );
    assert_eq!(locator.resolve_to_file("other::db", &files, &dirs), None);
}

#[test]
fn locator_maps_files_back_to_logical_paths() {
    let locator = FileLocator::new(String::from("proj"));
    assert_eq!(
        locator.file_to_logical(&String::from("proj/src/db.rs")),
        Some(String::from("crate::db"))
    );
    assert_eq!(
        locator.file_to_logical(&String::from("proj/src/services/mod.rs")),
        Some(String::from("crate::services"))
    );
    assert_eq!(
        locator.file_to_logical(&String::from("proj/src/lib.rs")),
        Some(String::from("crate"))
    );
    assert_eq!(locator.file_to_logical(&String::from("elsewhere/db.rs")), None);
}

#[test]
fn import_mapper_resolves_known_and_local_symbols() {
    let mapper = ImportMapper::from_entries(vec![
        (String::from("Pool"), String::from("crate::db::Pool")),
    ]);
    assert_eq!(mapper.resolve("Pool"), "crate::db::Pool");
    assert_eq!(mapper.resolve("Config"), "self::Config");
    assert_eq!(mapper.qualify_type("crate::db", "Pool"), "crate::db::Pool");
    assert_eq!(mapper.qualify_type("crate::db", "Config"), "crate::db::Config");
    assert_eq!(mapper.qualify_type("crate::db", "crate::x::Y"), "crate::x::Y");
}

#[test]
fn scanner_collects_dependencies_first() {
    let mut scanner = Scanner::new(String::from("proj"));
    for s in chain_sigs() {
        let key = s.output_type.clone();
        scanner.add_provider(key, s);
    }
    let mapper = ImportMapper::from_entries(vec![
        (String::from("App"), String::from("crate::app::App")),
    ]);
    let collected = scanner.run(&mapper, "crate", "App");
    let names: Vec<&str> = collected.iter().map(|s| s.name.as_str()).collect();
    assert_eq!(
        names,
        vec!["provide_config", "provide_database", "provide_service", "init_app"]
    );
}

#[test]
fn scanner_skips_unknown_targets() {
    let mut scanner = Scanner::new(String::from("proj"));
    let mapper = ImportMapper::from_entries(vec![]);
    let collected = scanner.run(&mapper, "crate", "Missing");
    assert!(collected.is_empty());
}

#[test]
fn generate_code_reports_duplicate_output_types() {
    let providers = vec![
        sig("crate::a::make", "make_a", vec![], "crate::Foo"),
        sig("crate::b::make", "make_b", vec![], "crate::Foo"),
    ];
    match generate_code(providers, "crate::Foo", "init") {
        Err(WireError::Conflict { entries }) => {
            assert_eq!(entries.len(), 1);
            assert_eq!(entries[0].key, "crate_foo");
            assert_eq!(entries[0].paths.len(), 2);
            assert!(entries[0].paths.iter().any(|p| p == "crate::a::make"));
            assert!(entries[0].paths.iter().any(|p| p == "crate::b::make"));
        }
        other => panic!("expected a conflict, got {:?}", other),
    }
}

#[test]
fn module_paths_fold_separators_and_drop_extensions() {
    assert_eq!(wire::locator::path_to_module_path("src/db.rs", "src"), "db");
    assert_eq!(
        wire::locator::path_to_module_path("src/services/user.rs", "src"),
        "services::user"
    );
    assert_eq!(
        wire::locator::path_to_module_path("src/services/mod.rs", "src"),
        "services::mod"
    );
}
