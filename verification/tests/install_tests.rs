use grind::config::Dependency;
use grind::install::{
    build_jar_url, build_pom_url, fix_collisions, is_version_newer, jar_file_name, pom_cache_name,
};

fn dep(group: &str, artifact: &str, version: &str) -> Dependency {
    Dependency {
        groupId: group.to_string(),
        artifactId: artifact.to_string(),
        version: String::from(version),
        scope: None,
    }
}

#[test]
fn test_deduplicate_dependencies() {
    let mut deps = Vec::new();

    deps.push(Dependency {
        groupId: "com.example".to_string(),
        artifactId: "lib1".to_string(),
        version: String::from("1.0.0"),
        scope: None,
    });

    deps.push(Dependency {
        groupId: "com.example".to_string(),
        artifactId: "lib1".to_string(),
        version: String::from("2.0.0"), // Should be kept
        scope: None,
    });

    deps.push(Dependency {
        groupId: "com.example".to_string(),
        artifactId: "lib2".to_string(),
        version: String::from("0.9.1"), // Only one, should be kept
        scope: None,
    });

    deps.push(Dependency {
        groupId: "org.other".to_string(),
        artifactId: "lib3".to_string(),
        version: String::from("3.1.4"),
        scope: None,
    });

    deps.push(Dependency {
        groupId: "org.other".to_string(),
        artifactId: "lib3".to_string(),
        version: String::from("3.2.0"), // Should be kept
        scope: None,
    });

    let result = fix_collisions(deps);

    // Should contain only 3 dependencies: latest of lib1, lib2, and lib3
    assert_eq!(result.len(), 3);

    // Check that correct versions are picked
    let expected = vec![
        Dependency {
            groupId: "com.example".to_string(),
            artifactId: "lib1".to_string(),
            version: String::from("2.0.0"),
            scope: None,
        },
        Dependency {
            groupId: "com.example".to_string(),
            artifactId: "lib2".to_string(),
            version: String::from("0.9.1"),
            scope: None,
        },
        Dependency {
            groupId: "org.other".to_string(),
            artifactId: "lib3".to_string(),
            version: String::from("3.2.0"),
            scope: None,
        },
    ];

    for dep in expected {
        assert!(
            result.contains(&dep),
            "Missing expected dependency: {:?}",
            dep
        );
    }
}

#[test]
fn collisions_keep_the_newest_whatever_the_order() {
    let result = fix_collisions(vec![
        dep("g", "a", "2.0"),
        dep("g", "b", "1.0-RC1"),
        dep("g", "a", "1.9.9"),
        dep("g", "b", "1.0"),
        dep("h", "a", "0.1"),
    ]);
    assert_eq!(
        result,
        vec![dep("g", "a", "2.0"), dep("g", "b", "1.0"), dep("h", "a", "0.1")]
    );
}

#[test]
fn collisions_keep_the_first_of_equal_versions() {
    let result = fix_collisions(vec![dep("g", "a", "1.0"), dep("g", "a", "1.0.0")]);
    assert_eq!(result, vec![dep("g", "a", "1.0")]);
    assert!(fix_collisions(Vec::new()).is_empty());
}

#[test]
fn newer_means_strictly_newer() {
    assert!(is_version_newer("1.0", "1.0.1"));
    assert!(is_version_newer("1.0-SNAPSHOT", "1.0"));
    assert!(!is_version_newer("1.0", "1.0.0"));
    assert!(!is_version_newer("2.0", "1.9.9"));
}

#[test]
fn remote_addresses_turn_dots_of_the_group_into_slashes() {
    assert_eq!(
        build_pom_url("org.example.app", "core", "1.2.3"),
        "https://repo1.maven.org/maven2/org/example/app/core/1.2.3/core-1.2.3.pom"
    );
    assert_eq!(
        build_jar_url("org.example.app", "core", "1.2.3"),
        "https://repo1.maven.org/maven2/org/example/app/core/1.2.3/core-1.2.3.jar"
    );
}

#[test]
fn local_names_are_flat() {
    let d = dep("org.example", "core", "1.2.3");
    assert_eq!(jar_file_name(&d), "org.example_core_1.2.3.jar");
    assert_eq!(pom_cache_name(&d), "org.example_core_1.2.3.pdd");
}
