use dylib_resolver::collector::{Collector, DepTable};
use dylib_resolver::plan::plan_rewrites;
use dylib_resolver::resolver::Resolver;
use dylib_resolver::Resolution;

const SSL: &str = "/opt/homebrew/Cellar/openssl/3.0/lib/libssl.dylib";
const FOO: &str = "/opt/homebrew/Cellar/foo/1.0/lib/libfoo.dylib";

fn two_root_resolver() -> Resolver {
    Resolver::new(
        "/sysroot".to_string(),
        vec![
            "/sysroot/lib1.dylib".to_string(),
            "/sysroot/lib2.dylib".to_string(),
        ],
        &vec![SSL.to_string(), FOO.to_string()],
        &vec!["/usr/lib/libSystem.B.dylib".to_string()],
    )
}

#[test]
fn shared_dependency_recorded_once() {
    // Scenario: two distinct sysroot binaries both depend on
    // @rpath/libssl.dylib, resolving to the same package-cache path; that
    // path gets exactly one record (its dependencies are listed once).
    let r = two_root_resolver();
    let mut table = DepTable::new();
    table.insert(
        "/sysroot/lib1.dylib".to_string(),
        vec!["@rpath/libssl.dylib".to_string()],
    );
    table.insert(
        "/sysroot/lib2.dylib".to_string(),
        vec!["@rpath/libssl.dylib".to_string()],
    );
    table.insert(SSL.to_string(), vec!["/usr/lib/libSystem.B.dylib".to_string()]);
    let records = r.collect_deps(&table).unwrap();
    assert_eq!(records.len(), 3);
    let ssl_records: Vec<_> = records.iter().filter(|rec| rec.path == SSL).collect();
    assert_eq!(ssl_records.len(), 1);

    // the planner copies libssl.dylib exactly once
    let roots = vec![
        "/sysroot/lib1.dylib".to_string(),
        "/sysroot/lib2.dylib".to_string(),
    ];
    let plan = plan_rewrites(&records, &roots);
    let vendored: Vec<_> = plan.iter().filter(|p| p.vendored).collect();
    assert_eq!(vendored.len(), 1);
    assert_eq!(vendored[0].source, SSL);
    assert_eq!(vendored[0].install_name, "@rpath/libssl.dylib");
}

#[test]
fn cycle_terminates_with_one_record_each() {
    // two libraries that reference each other directly must not loop
    let r = Resolver::new(
        "/sysroot".to_string(),
        vec!["/sysroot/lib1.dylib".to_string()],
        &vec![],
        &vec![],
    );
    let mut table = DepTable::new();
    table.insert(
        "/sysroot/lib1.dylib".to_string(),
        vec!["/sysroot/lib2.dylib".to_string()],
    );
    table.insert(
        "/sysroot/lib2.dylib".to_string(),
        vec!["/sysroot/lib1.dylib".to_string()],
    );
    let records = r.collect_deps(&table).unwrap();
    assert_eq!(records.len(), 2);
    assert_eq!(
        records.iter().filter(|rec| rec.path == "/sysroot/lib1.dylib").count(),
        1
    );
    assert_eq!(
        records.iter().filter(|rec| rec.path == "/sysroot/lib2.dylib").count(),
        1
    );
}

#[test]
fn system_references_are_not_expanded() {
    // Scenario: a system dependency gets no copy, no rewrite entry, and no
    // recursion into its own dependencies.
    let r = Resolver::new(
        "/sysroot".to_string(),
        vec!["/sysroot/lib1.dylib".to_string()],
        &vec![],
        &vec![],
    );
    let mut table = DepTable::new();
    table.insert(
        "/sysroot/lib1.dylib".to_string(),
        vec!["/usr/lib/libSystem.B.dylib".to_string()],
    );
    let records = r.collect_deps(&table).unwrap();
    assert_eq!(records.len(), 1);
    assert_eq!(records[0].path, "/sysroot/lib1.dylib");
    assert_eq!(records[0].deps.len(), 1);
    assert_eq!(records[0].deps[0].resolution, Resolution::System);

    let plan = plan_rewrites(&records, &vec!["/sysroot/lib1.dylib".to_string()]);
    assert_eq!(plan.len(), 1);
    assert!(!plan[0].vendored);
    assert_eq!(plan[0].rewrites.len(), 0);
}

#[test]
fn unknown_reference_skipped_but_siblings_processed() {
    // Scenario: an unresolvable marker reference is Unknown; it gets no
    // rewrite action, while sibling references are still handled.
    let r = two_root_resolver();
    let mut table = DepTable::new();
    table.insert(
        "/sysroot/lib1.dylib".to_string(),
        vec![
            "@rpath/libbar.dylib".to_string(),
            "@rpath/libfoo.dylib".to_string(),
        ],
    );
    table.insert(
        "/sysroot/lib2.dylib".to_string(),
        vec![],
    );
    table.insert(FOO.to_string(), vec![]);
    let records = r.collect_deps(&table).unwrap();
    let lib1 = records.iter().find(|rec| rec.path == "/sysroot/lib1.dylib").unwrap();
    assert_eq!(lib1.deps[0].resolution, Resolution::Unknown);
    assert_eq!(lib1.deps[1].resolution, Resolution::Required);

    let roots = vec![
        "/sysroot/lib1.dylib".to_string(),
        "/sysroot/lib2.dylib".to_string(),
    ];
    let plan = plan_rewrites(&records, &roots);
    let lib1_plan = plan.iter().find(|p| p.source == "/sysroot/lib1.dylib").unwrap();
    assert_eq!(lib1_plan.rewrites.len(), 1);
    assert_eq!(lib1_plan.rewrites[0].reference, "@rpath/libfoo.dylib");
    assert_eq!(lib1_plan.rewrites[0].new_reference, "@rpath/libfoo.dylib");
}

#[test]
fn vendored_library_missing_from_lister_is_fatal() {
    let r = two_root_resolver();
    let mut table = DepTable::new();
    table.insert(
        "/sysroot/lib1.dylib".to_string(),
        vec!["@rpath/libssl.dylib".to_string()],
    );
    table.insert("/sysroot/lib2.dylib".to_string(), vec![]);
    // no entry for the resolved libssl.dylib path
    let err = r.collect_deps(&table).unwrap_err();
    assert_eq!(err, SSL);
}

#[test]
fn scenario_required_dependency_full_plan() {
    // Scenario: a sysroot binary lists @rpath/libfoo.dylib; the package
    // cache resolves it.  The library is vendored under its basename with
    // an @rpath identity, the root's reference is rewritten, and both
    // binaries appear in the plan (both get re-signed).
    let r = Resolver::new(
        "/sysroot".to_string(),
        vec!["/sysroot/lib1.dylib".to_string()],
        &vec![FOO.to_string()],
        &vec!["/usr/lib/libSystem.B.dylib".to_string()],
    );
    let mut table = DepTable::new();
    table.insert(
        "/sysroot/lib1.dylib".to_string(),
        vec!["@rpath/libfoo.dylib".to_string()],
    );
    table.insert(FOO.to_string(), vec!["/usr/lib/libSystem.B.dylib".to_string()]);
    let records = r.collect_deps(&table).unwrap();

    let roots = vec!["/sysroot/lib1.dylib".to_string()];
    let plan = plan_rewrites(&records, &roots);
    assert_eq!(plan.len(), 2);

    let foo_plan = &plan[0];
    assert!(foo_plan.vendored);
    assert_eq!(foo_plan.source, FOO);
    assert_eq!(foo_plan.install_name, "@rpath/libfoo.dylib");
    assert_eq!(foo_plan.rewrites.len(), 0);

    let root_plan = &plan[1];
    assert!(!root_plan.vendored);
    assert_eq!(root_plan.source, "/sysroot/lib1.dylib");
    assert_eq!(root_plan.rewrites.len(), 1);
    assert_eq!(root_plan.rewrites[0].reference, "@rpath/libfoo.dylib");
    assert_eq!(root_plan.rewrites[0].new_reference, "@rpath/libfoo.dylib");
}

#[test]
fn vendored_set_is_exactly_the_required_set() {
    // Rewrite completeness: the copy list holds every Required canonical
    // path exactly once, under its original basename, and nothing else.
    let r = two_root_resolver();
    let mut table = DepTable::new();
    table.insert(
        "/sysroot/lib1.dylib".to_string(),
        vec![
            "@rpath/libssl.dylib".to_string(),
            "/usr/lib/libSystem.B.dylib".to_string(),
        ],
    );
    table.insert(
        "/sysroot/lib2.dylib".to_string(),
        vec![
            "@rpath/libfoo.dylib".to_string(),
            "@rpath/libssl.dylib".to_string(),
        ],
    );
    table.insert(SSL.to_string(), vec![]);
    table.insert(FOO.to_string(), vec![]);
    let records = r.collect_deps(&table).unwrap();
    let roots = vec![
        "/sysroot/lib1.dylib".to_string(),
        "/sysroot/lib2.dylib".to_string(),
    ];
    let plan = plan_rewrites(&records, &roots);
    let mut vendored: Vec<&str> = plan
        .iter()
        .filter(|p| p.vendored)
        .map(|p| p.source.as_str())
        .collect();
    vendored.sort();
    assert_eq!(vendored, vec![FOO, SSL]);
    for p in plan.iter().filter(|p| p.vendored) {
        let base = p.source.rsplit('/').next().unwrap();
        assert_eq!(p.install_name, format!("@rpath/{base}"));
    }
}

#[test]
fn transitive_sysroot_library_planned_in_place() {
    // a sysroot library found only through another library's references
    // still gets its references rewritten and is re-signed, without a copy
    let r = Resolver::new(
        "/sysroot".to_string(),
        vec!["/sysroot/lib1.dylib".to_string()],
        &vec![FOO.to_string()],
        &vec![],
    );
    let mut table = DepTable::new();
    table.insert(
        "/sysroot/lib1.dylib".to_string(),
        vec!["/sysroot/sub/lib2.dylib".to_string()],
    );
    table.insert(
        "/sysroot/sub/lib2.dylib".to_string(),
        vec!["@rpath/libfoo.dylib".to_string()],
    );
    table.insert(FOO.to_string(), vec![]);
    let records = r.collect_deps(&table).unwrap();
    assert_eq!(records.len(), 3);

    let roots = vec!["/sysroot/lib1.dylib".to_string()];
    let plan = plan_rewrites(&records, &roots);
    assert_eq!(plan.len(), 3);
    assert!(plan[0].vendored);
    assert_eq!(plan[0].source, FOO);
    let lib2_plan = plan
        .iter()
        .find(|p| p.source == "/sysroot/sub/lib2.dylib")
        .unwrap();
    assert!(!lib2_plan.vendored);
    assert_eq!(lib2_plan.rewrites.len(), 1);
    assert_eq!(lib2_plan.rewrites[0].reference, "@rpath/libfoo.dylib");
    assert_eq!(lib2_plan.rewrites[0].new_reference, "@rpath/libfoo.dylib");
}

#[test]
fn empty_roots_yield_empty_plan() {
    let r = Resolver::new("/sysroot".to_string(), vec![], &vec![], &vec![]);
    let table = DepTable::new();
    let records = r.collect_deps(&table).unwrap();
    assert_eq!(records.len(), 0);
    let plan = plan_rewrites(&records, &vec![]);
    assert_eq!(plan.len(), 0);
}

#[test]
fn step_interface_drives_like_the_table() {
    // the state machine alone: request, answer, request, ... until done
    let r = two_root_resolver();
    let mut col = Collector::new(vec![
        "/sysroot/lib1.dylib".to_string(),
        "/sysroot/lib2.dylib".to_string(),
    ]);
    let mut listed: Vec<String> = Vec::new();
    while let Some(path) = col.next_request(&r) {
        listed.push(path.clone());
        let deps = if path == "/sysroot/lib1.dylib" || path == "/sysroot/lib2.dylib" {
            vec!["@rpath/libssl.dylib".to_string()]
        } else {
            vec![]
        };
        col.provide_deps(&r, deps);
    }
    assert_eq!(
        listed,
        vec![
            "/sysroot/lib1.dylib".to_string(),
            "/sysroot/lib2.dylib".to_string(),
            SSL.to_string(),
        ]
    );
    assert_eq!(col.records.len(), 3);
}
