use grind::config::Dependency;
use grind::install::{execute_install, fetch_deps, resolve_all_deps, InstallStep};
use grind::config::{Grind, Project};
use grind::lock::Lock;
use grind::pom::{
    get_effective_dependencies, resolve_context_recursive, substitute_properties,
    EffectiveDependency, Parent, Pom, PomDependency, PomId, PomIdSet, PomSource, PomStore,
    ResolveError,
};

fn id(group: &str, artifact: &str, version: &str) -> PomId {
    PomId {
        group_id: group.to_string(),
        artifact_id: artifact.to_string(),
        version: version.to_string(),
    }
}

fn declared(group: &str, artifact: &str, version: Option<&str>) -> PomDependency {
    PomDependency {
        group_id: group.to_string(),
        artifact_id: artifact.to_string(),
        version: version.map(|v| v.to_string()),
        kind: None,
        scope: None,
        optional: None,
    }
}

fn import(group: &str, artifact: &str, version: Option<&str>) -> PomDependency {
    PomDependency {
        kind: Some("pom".to_string()),
        scope: Some("import".to_string()),
        ..declared(group, artifact, version)
    }
}

fn pom(group: &str, artifact: &str, version: &str) -> Pom {
    Pom {
        group_id: Some(group.to_string()),
        artifact_id: Some(artifact.to_string()),
        version: Some(version.to_string()),
        parent: None,
        properties: Vec::new(),
        dependency_management: Vec::new(),
        dependencies: Vec::new(),
    }
}

fn parent(group: &str, artifact: &str, version: &str) -> Option<Parent> {
    Some(Parent {
        group_id: group.to_string(),
        artifact_id: artifact.to_string(),
        version: version.to_string(),
    })
}

fn store_of(poms: Vec<(PomId, Pom)>) -> PomStore {
    let mut store = PomStore::new();
    for (i, p) in poms {
        store.insert(i, PomSource::Parsed(p));
    }
    store
}

fn effective(group: &str, artifact: &str, version: &str, scope: &str) -> EffectiveDependency {
    EffectiveDependency {
        group_id: group.to_string(),
        artifact_id: artifact.to_string(),
        version: version.to_string(),
        scope: Some(scope.to_string()),
    }
}

fn dep(group: &str, artifact: &str, version: &str, scope: Option<&str>) -> Dependency {
    Dependency {
        groupId: group.to_string(),
        artifactId: artifact.to_string(),
        version: version.to_string(),
        scope: scope.map(|s| s.to_string()),
    }
}

#[test]
fn substitution_replaces_every_placeholder() {
    let props = vec![
        ("a".to_string(), "1".to_string()),
        ("b.c".to_string(), "2".to_string()),
    ];
    assert_eq!(substitute_properties("${a}.${b.c}.${a}", &props), "1.2.1");
    assert_eq!(substitute_properties("${x}", &props), "${x}");
    assert_eq!(substitute_properties("plain", &props), "plain");
    assert_eq!(substitute_properties("", &props), "");
}

#[test]
fn substitution_goes_through_the_properties_in_order() {
    let props = vec![
        ("a".to_string(), "${b}".to_string()),
        ("b".to_string(), "2".to_string()),
    ];
    assert_eq!(substitute_properties("${a}", &props), "2");
    let reversed = vec![
        ("b".to_string(), "2".to_string()),
        ("a".to_string(), "${b}".to_string()),
    ];
    assert_eq!(substitute_properties("${a}", &reversed), "${b}");
}

#[test]
fn a_property_of_the_parent_settles_the_version_of_the_child() {
    let mut up = pom("g", "parent", "1");
    up.properties = vec![("foo.version".to_string(), "1.2.3".to_string())];
    let mut child = pom("g", "child", "1");
    child.parent = parent("g", "parent", "1");
    child.dependencies = vec![declared("x", "foo", Some("${foo.version}"))];
    let store = store_of(vec![(id("g", "parent", "1"), up), (id("g", "child", "1"), child)]);
    let mut visited = PomIdSet::new();
    let deps = get_effective_dependencies(&store, id("g", "child", "1"), &mut visited).unwrap();
    assert_eq!(deps, vec![effective("x", "foo", "1.2.3", "compile")]);
}

#[test]
fn what_the_child_manages_wins_over_the_parent() {
    let mut up = pom("g", "parent", "1");
    up.dependency_management = vec![declared("x", "y", Some("1.0"))];
    let mut child = pom("g", "child", "1");
    child.parent = parent("g", "parent", "1");
    child.dependency_management = vec![declared("x", "y", Some("2.0"))];
    child.dependencies = vec![declared("x", "y", None)];
    let store = store_of(vec![(id("g", "parent", "1"), up), (id("g", "child", "1"), child)]);
    let mut visited = PomIdSet::new();
    let deps = get_effective_dependencies(&store, id("g", "child", "1"), &mut visited).unwrap();
    assert_eq!(deps, vec![effective("x", "y", "2.0", "compile")]);
}

#[test]
fn what_the_parent_manages_is_inherited() {
    let mut up = pom("g", "parent", "1");
    up.dependency_management = vec![declared("x", "y", Some("1.0"))];
    let mut child = pom("g", "child", "1");
    child.parent = parent("g", "parent", "1");
    child.dependencies = vec![declared("x", "y", None), declared("x", "unknown", None)];
    let store = store_of(vec![(id("g", "parent", "1"), up), (id("g", "child", "1"), child)]);
    let mut visited = PomIdSet::new();
    let deps = get_effective_dependencies(&store, id("g", "child", "1"), &mut visited).unwrap();
    assert_eq!(deps, vec![effective("x", "y", "1.0", "compile")]);
}

#[test]
fn what_the_child_manages_wins_over_an_import() {
    let mut bom = pom("b", "bom", "1");
    bom.dependency_management =
        vec![declared("x", "y", Some("1.0")), declared("x", "z", Some("7"))];
    let mut child = pom("g", "child", "1");
    child.dependency_management =
        vec![declared("x", "y", Some("2.0")), import("b", "bom", Some("${bom.version}"))];
    child.properties = vec![("bom.version".to_string(), "1".to_string())];
    child.dependencies = vec![declared("x", "y", None), declared("x", "z", None)];
    let store = store_of(vec![(id("b", "bom", "1"), bom), (id("g", "child", "1"), child)]);
    let mut visited = PomIdSet::new();
    let deps = get_effective_dependencies(&store, id("g", "child", "1"), &mut visited).unwrap();
    assert_eq!(
        deps,
        vec![effective("x", "y", "2.0", "compile"), effective("x", "z", "7", "compile")]
    );
}

#[test]
fn imports_are_resolved_from_left_to_right() {
    let mut first = pom("b", "first", "1");
    first.dependency_management = vec![declared("x", "y", Some("1.0"))];
    let mut second = pom("b", "second", "1");
    second.dependency_management = vec![declared("x", "y", Some("9.9"))];
    let mut child = pom("g", "child", "1");
    child.dependency_management =
        vec![import("b", "first", Some("1")), import("b", "second", Some("1"))];
    child.dependencies = vec![declared("x", "y", None)];
    let store = store_of(vec![
        (id("b", "first", "1"), first),
        (id("b", "second", "1"), second),
        (id("g", "child", "1"), child),
    ]);
    let mut visited = PomIdSet::new();
    let deps = get_effective_dependencies(&store, id("g", "child", "1"), &mut visited).unwrap();
    assert_eq!(deps, vec![effective("x", "y", "1.0", "compile")]);
}

#[test]
fn a_cycle_of_parents_ends() {
    let mut a = pom("g", "a", "1");
    a.parent = parent("g", "b", "1");
    a.dependencies = vec![declared("x", "y", Some("1.0")), declared("x", "z", Some("2.0"))];
    let mut b = pom("g", "b", "1");
    b.parent = parent("g", "a", "1");
    b.dependency_management = vec![declared("m", "n", Some("3"))];
    let store = store_of(vec![(id("g", "a", "1"), a), (id("g", "b", "1"), b)]);
    let mut visited = PomIdSet::new();
    let (resolved, context) =
        resolve_context_recursive(&store, &id("g", "a", "1"), &mut visited).unwrap();
    assert_eq!(resolved.dependencies.len(), 2);
    assert_eq!(context.dependency_management.len(), 1);
    assert_eq!(context.dependency_management[0].0, "m:n");
    assert!(visited.contains(&id("g", "a", "1")));
    assert!(visited.contains(&id("g", "b", "1")));
    assert_eq!(visited.ids.len(), 2);

    let mut again = PomIdSet::new();
    let deps = get_effective_dependencies(&store, id("g", "a", "1"), &mut again).unwrap();
    assert_eq!(
        deps,
        vec![effective("x", "y", "1.0", "compile"), effective("x", "z", "2.0", "compile")]
    );
}

#[test]
fn a_visited_description_comes_back_with_an_empty_context() {
    let mut a = pom("g", "a", "1");
    a.dependency_management = vec![declared("m", "n", Some("3"))];
    a.properties = vec![("k".to_string(), "v".to_string())];
    let store = store_of(vec![(id("g", "a", "1"), a)]);
    let mut visited = PomIdSet::new();
    visited.insert(id("g", "a", "1"));
    let (_, context) = resolve_context_recursive(&store, &id("g", "a", "1"), &mut visited).unwrap();
    assert!(context.dependency_management.is_empty());
    assert!(context.properties.is_empty());
}

#[test]
fn identity_is_inherited_from_the_named_parent() {
    let up = pom("pg", "parent", "9");
    let mut child = pom("ignored", "child", "ignored");
    child.group_id = None;
    child.version = None;
    child.parent = parent("pg", "parent", "9");
    child.dependencies = vec![declared(
        "${project.groupId}",
        "${project.artifactId}-${project.parent.groupId}",
        Some("${project.version}-${project.parent.version}"),
    )];
    let store = store_of(vec![(id("pg", "parent", "9"), up), (id("pg", "child", "9"), child)]);
    let mut visited = PomIdSet::new();
    let (resolved, _) =
        resolve_context_recursive(&store, &id("pg", "child", "9"), &mut visited).unwrap();
    assert_eq!(resolved.group_id, Some("pg".to_string()));
    assert_eq!(resolved.version, Some("9".to_string()));
    let mut again = PomIdSet::new();
    let deps = get_effective_dependencies(&store, id("pg", "child", "9"), &mut again).unwrap();
    assert_eq!(deps, vec![effective("pg", "child-pg", "9-9", "compile")]);
}

#[test]
fn declared_properties_win_over_built_in_ones() {
    let mut p = pom("g", "a", "1");
    p.properties = vec![("project.version".to_string(), "override".to_string())];
    p.dependencies = vec![declared("x", "y", Some("${project.version}"))];
    let store = store_of(vec![(id("g", "a", "1"), p)]);
    let mut visited = PomIdSet::new();
    let deps = get_effective_dependencies(&store, id("g", "a", "1"), &mut visited).unwrap();
    assert_eq!(deps, vec![effective("x", "y", "override", "compile")]);
}

#[test]
fn optional_and_unversioned_dependencies_are_dropped() {
    let mut p = pom("g", "a", "1");
    let mut optional = declared("x", "opt", Some("1"));
    optional.optional = Some("true".to_string());
    let mut not_optional = declared("x", "not", Some("1"));
    not_optional.optional = Some("false".to_string());
    let mut scoped = declared("x", "t", Some("1"));
    scoped.scope = Some("test".to_string());
    p.dependencies = vec![optional, not_optional, declared("x", "none", None), scoped];
    let store = store_of(vec![(id("g", "a", "1"), p)]);
    let mut visited = PomIdSet::new();
    let deps = get_effective_dependencies(&store, id("g", "a", "1"), &mut visited).unwrap();
    assert_eq!(
        deps,
        vec![effective("x", "not", "1", "compile"), effective("x", "t", "1", "test")]
    );
}

#[test]
fn a_version_that_is_not_resolved_in_full_is_dropped() {
    let mut p = pom("g", "a", "1");
    p.properties = vec![
        ("known".to_string(), "1.2".to_string()),
        ("empty".to_string(), String::new()),
        ("nested".to_string(), "${unknown}".to_string()),
    ];
    p.dependency_management = vec![declared("x", "managed", Some("${unknown}"))];
    p.dependencies = vec![
        declared("x", "placeholder", Some("${v}")),
        declared("x", "partly", Some("${known}-${v}")),
        declared("x", "nothing", Some("")),
        declared("x", "emptied", Some("${empty}")),
        declared("x", "nested", Some("${nested}")),
        declared("x", "managed", None),
        declared("x", "open", Some("1.0-${")),
        declared("x", "fine", Some("${known}")),
        declared("x", "dollar", Some("1$0")),
    ];
    let store = store_of(vec![(id("g", "a", "1"), p)]);
    let mut visited = PomIdSet::new();
    let deps = get_effective_dependencies(&store, id("g", "a", "1"), &mut visited).unwrap();
    assert_eq!(
        deps,
        vec![effective("x", "fine", "1.2", "compile"), effective("x", "dollar", "1$0", "compile")]
    );
    for e in &deps {
        assert!(!e.version.is_empty());
        assert!(!e.version.contains("${"));
        assert!(e.scope.is_some());
    }
}

#[test]
fn a_dependency_without_a_version_in_full_is_not_followed() {
    let mut app = pom("g", "app", "1");
    app.dependencies =
        vec![declared("g", "lib", Some("${lib.version}")), declared("g", "util", Some("1"))];
    let store = store_of(vec![(id("g", "app", "1"), app), (id("g", "util", "1"), pom("g", "util", "1"))]);
    assert_eq!(
        fetch_deps(&store, &dep("g", "app", "1", None)),
        Ok(vec![dep("g", "util", "1", Some("compile"))])
    );
    assert_eq!(
        resolve_all_deps(&store, vec![dep("g", "app", "1", None)]),
        Ok(vec![dep("g", "app", "1", None), dep("g", "util", "1", Some("compile"))])
    );
}

#[test]
fn nothing_is_installed_while_a_description_is_lacking() {
    let deps = vec![dep("g", "app", "1", Some("compile"))];
    let mut store = PomStore::new();
    assert_eq!(
        execute_install(&store, &project(deps.clone()), None),
        InstallStep::Fetch(id("g", "app", "1"))
    );
    let mut app = pom("g", "app", "1");
    app.dependencies = vec![declared("g", "lib", Some("1"))];
    store.insert(id("g", "app", "1"), PomSource::Parsed(app));
    assert_eq!(
        execute_install(&store, &project(deps.clone()), None),
        InstallStep::Fetch(id("g", "lib", "1"))
    );
    store.insert(id("g", "lib", "1"), PomSource::Parsed(pom("g", "lib", "1")));
    assert_eq!(
        execute_install(&store, &project(deps.clone()), None),
        InstallStep::Install(Lock {
            inputDeps: deps,
            lockedDeps: vec![
                dep("g", "app", "1", Some("compile")),
                dep("g", "lib", "1", Some("compile")),
            ],
        })
    );
}

#[test]
fn a_missing_description_is_asked_for() {
    let mut child = pom("g", "child", "1");
    child.parent = parent("g", "parent", "1");
    let store = store_of(vec![(id("g", "child", "1"), child)]);
    let mut visited = PomIdSet::new();
    assert_eq!(
        get_effective_dependencies(&store, id("g", "child", "1"), &mut visited),
        Err(ResolveError::Missing(id("g", "parent", "1")))
    );
    let mut fresh = PomIdSet::new();
    assert_eq!(
        get_effective_dependencies(&PomStore::new(), id("g", "child", "1"), &mut fresh),
        Err(ResolveError::Missing(id("g", "child", "1")))
    );
}

#[test]
fn an_unusable_description_fails_the_resolution() {
    let mut child = pom("g", "child", "1");
    child.parent = parent("g", "parent", "1");
    let mut store = store_of(vec![(id("g", "child", "1"), child)]);
    store.insert(id("g", "parent", "1"), PomSource::Invalid("Error at project: bad".to_string()));
    let mut visited = PomIdSet::new();
    assert_eq!(
        get_effective_dependencies(&store, id("g", "child", "1"), &mut visited),
        Err(ResolveError::Invalid("Error at project: bad".to_string()))
    );
}

#[test]
fn an_import_without_a_version_fails_the_resolution() {
    let mut child = pom("g", "child", "1");
    child.dependency_management = vec![import("b", "bom", None)];
    let store = store_of(vec![(id("g", "child", "1"), child)]);
    let mut visited = PomIdSet::new();
    assert_eq!(
        get_effective_dependencies(&store, id("g", "child", "1"), &mut visited),
        Err(ResolveError::Invalid("import without a version: b:bom".to_string()))
    );
}

#[test]
fn ids_are_written_with_colons() {
    assert_eq!(id("g", "a", "1.0").to_text(), "g:a:1.0");
}

fn sample_store() -> PomStore {
    let mut app = pom("g", "app", "1");
    let mut runtime = declared("g", "lib", Some("1"));
    runtime.scope = Some("runtime".to_string());
    let mut test_only = declared("g", "junit", Some("4"));
    test_only.scope = Some("test".to_string());
    let mut provided = declared("g", "api", Some("1"));
    provided.scope = Some("provided".to_string());
    app.dependencies = vec![runtime, test_only, provided, declared("g", "util", Some("1"))];
    let mut lib = pom("g", "lib", "1");
    lib.dependencies = vec![declared("g", "util", Some("2")), declared("g", "app", Some("1"))];
    let util1 = pom("g", "util", "1");
    let util2 = pom("g", "util", "2");
    store_of(vec![
        (id("g", "app", "1"), app),
        (id("g", "lib", "1"), lib),
        (id("g", "util", "1"), util1),
        (id("g", "util", "2"), util2),
    ])
}

#[test]
fn only_compile_and_runtime_dependencies_are_followed() {
    let store = sample_store();
    let found = fetch_deps(&store, &dep("g", "app", "1", None)).unwrap();
    assert_eq!(
        found,
        vec![dep("g", "lib", "1", Some("runtime")), dep("g", "util", "1", Some("compile"))]
    );
}

#[test]
fn the_closure_holds_everything_reachable_once() {
    let store = sample_store();
    let all = resolve_all_deps(
        &store,
        vec![dep("g", "app", "1", Some("compile")), dep("g", "junit", "4", Some("test"))],
    )
    .unwrap();
    assert_eq!(
        all,
        vec![
            dep("g", "app", "1", Some("compile")),
            dep("g", "lib", "1", Some("runtime")),
            dep("g", "util", "1", Some("compile")),
            dep("g", "util", "2", Some("compile")),
        ]
    );
}

#[test]
fn the_closure_asks_for_what_the_store_lacks() {
    let mut store = PomStore::new();
    let root = vec![dep("g", "app", "1", None)];
    assert_eq!(resolve_all_deps(&store, root.clone()), Err(id("g", "app", "1")));
    let mut app = pom("g", "app", "1");
    app.dependencies = vec![declared("g", "lib", Some("1"))];
    store.insert(id("g", "app", "1"), PomSource::Parsed(app));
    assert_eq!(resolve_all_deps(&store, root.clone()), Err(id("g", "lib", "1")));
    store.insert(id("g", "lib", "1"), PomSource::Invalid("no such file".to_string()));
    assert_eq!(
        resolve_all_deps(&store, root),
        Ok(vec![dep("g", "app", "1", None), dep("g", "lib", "1", Some("compile"))])
    );
}

fn project(dependencies: Vec<Dependency>) -> Grind {
    Grind {
        project: Project {
            groupId: "g".to_string(),
            artifactId: "mine".to_string(),
            version: "1".to_string(),
            name: "mine".to_string(),
            description: String::new(),
            dependencies,
            tasks: Vec::new(),
            profiles: None,
        },
    }
}

#[test]
fn a_current_lock_is_used_without_resolving() {
    let deps = vec![dep("g", "app", "1", Some("compile"))];
    let lock = Lock {
        inputDeps: deps.clone(),
        lockedDeps: vec![dep("anything", "locked", "3", None)],
    };
    let step = execute_install(&PomStore::new(), &project(deps), Some(lock));
    assert_eq!(step, InstallStep::UseLock(vec![dep("anything", "locked", "3", None)]));
}

#[test]
fn a_stale_lock_leads_to_a_resolution() {
    let deps = vec![dep("g", "app", "1", Some("compile"))];
    let lock = Lock { inputDeps: Vec::new(), lockedDeps: Vec::new() };
    let step = execute_install(&PomStore::new(), &project(deps.clone()), Some(lock));
    assert_eq!(step, InstallStep::Fetch(id("g", "app", "1")));

    let store = sample_store();
    let step = execute_install(&store, &project(deps.clone()), None);
    assert_eq!(
        step,
        InstallStep::Install(Lock {
            inputDeps: deps,
            lockedDeps: vec![
                dep("g", "app", "1", Some("compile")),
                dep("g", "lib", "1", Some("runtime")),
                dep("g", "util", "2", Some("compile")),
            ],
        })
    );
}
