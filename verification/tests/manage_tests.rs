use grind::config::{Dependency, Grind, Project};
use grind::manage::{
    execute_add, execute_remove, parse_coordinate, parse_group_and_artifact, remove_dependency,
    search_deps, update_grind, AddStep, Coordinate, Known, Removal,
};
use grind::metadata::maven_metadata_url;

fn dep(group: &str, artifact: &str, version: &str) -> Dependency {
    Dependency {
        groupId: group.to_string(),
        artifactId: artifact.to_string(),
        version: version.to_string(),
        scope: Some("compile".to_string()),
    }
}

fn grind(dependencies: Vec<Dependency>) -> Grind {
    Grind {
        project: Project {
            groupId: "g".to_string(),
            artifactId: "a".to_string(),
            version: "1".to_string(),
            name: "a".to_string(),
            description: "d".to_string(),
            dependencies,
            tasks: vec![("clean".to_string(), "rm -rf target".to_string())],
            profiles: None,
        },
    }
}

fn coordinate(group: &str, artifact: &str, version: &str) -> Coordinate {
    Coordinate {
        group_id: group.to_string(),
        artifact: artifact.to_string(),
        version: version.to_string(),
    }
}

#[test]
fn requests_name_group_artifact_and_version() {
    assert_eq!(parse_coordinate("io.javalin/javalin"), coordinate("io.javalin", "javalin", ""));
    assert_eq!(
        parse_coordinate("io.javalin/javalin@6.1.0"),
        coordinate("io.javalin", "javalin", "6.1.0")
    );
    assert_eq!(parse_coordinate("g/a@1@2"), coordinate("g", "a", "1@2"));
    assert_eq!(parse_coordinate("g/a@"), coordinate("g", "a", ""));
    assert_eq!(parse_coordinate("g/a/b@1"), coordinate("g", "a", ""));
    assert_eq!(parse_coordinate("no-slash@1"), coordinate("", "", ""));
    assert_eq!(parse_coordinate(""), coordinate("", "", ""));
    assert_eq!(
        parse_group_and_artifact("g/a@1"),
        ("g".to_string(), "a@1".to_string())
    );
}

#[test]
fn an_asked_version_must_be_known() {
    let versions = vec!["1.0".to_string(), "2.0".to_string()];
    let release = Some("2.0".to_string());
    assert_eq!(search_deps("g", "a", "1.0", &release, &versions), Some(dep("g", "a", "1.0")));
    assert_eq!(search_deps("g", "a", "3.0", &release, &versions), None);
    assert_eq!(search_deps("g", "a", "", &release, &versions), Some(dep("g", "a", "2.0")));
    assert_eq!(search_deps("g", "a", "", &None, &versions), None);
}

#[test]
fn candidates_are_added_once() {
    let mut project = grind(vec![dep("g", "a", "1")]);
    update_grind(&mut project, &vec![dep("g", "a", "1"), dep("g", "b", "1"), dep("g", "b", "1")]);
    assert_eq!(project, grind(vec![dep("g", "a", "1"), dep("g", "b", "1")]));
}

#[test]
fn the_first_dependency_for_an_artifact_is_removed() {
    let mut deps = vec![dep("g", "a", "1"), dep("g", "b", "1"), dep("g", "a", "2")];
    assert_eq!(remove_dependency(&mut deps, "g", "a"), Some(dep("g", "a", "1")));
    assert_eq!(deps, vec![dep("g", "b", "1"), dep("g", "a", "2")]);
    assert_eq!(remove_dependency(&mut deps, "g", "c"), None);
    assert_eq!(deps.len(), 2);
}

#[test]
fn requests_to_remove_are_served_in_order() {
    let mut project = grind(vec![dep("g", "a", "1"), dep("g", "b", "1"), dep("g", "a", "2")]);
    let removal = execute_remove(
        &mut project,
        &vec!["g/a".to_string(), "x/y".to_string(), "nothing".to_string(), "g/a".to_string()],
    );
    assert_eq!(
        removal,
        Removal {
            removed: vec![dep("g", "a", "1"), dep("g", "a", "2")],
            unmatched: vec![
                ("x".to_string(), "y".to_string()),
                (String::new(), String::new()),
            ],
        }
    );
    assert_eq!(project, grind(vec![dep("g", "b", "1")]));
}

#[test]
fn the_list_of_versions_lies_beside_the_artifact() {
    assert_eq!(
        maven_metadata_url("org.example", "core"),
        "https://repo1.maven.org/maven2/org/example/core/maven-metadata.xml"
    );
}

#[test]
fn requests_to_add_ask_for_what_is_not_known() {
    let requests = vec!["g/a@1.0".to_string(), "g/b".to_string(), "g/c@9".to_string()];
    let mut project = grind(vec![dep("g", "a", "1.0")]);
    let mut known = Vec::new();
    assert_eq!(
        execute_add(&mut project, &requests, &known),
        AddStep::Fetch("g".to_string(), "a".to_string())
    );
    known.push(Known {
        group_id: "g".to_string(),
        artifact: "a".to_string(),
        versions: Some((Some("2.0".to_string()), vec!["1.0".to_string(), "2.0".to_string()])),
    });
    assert_eq!(
        execute_add(&mut project, &requests, &known),
        AddStep::Fetch("g".to_string(), "b".to_string())
    );
    known.push(Known { group_id: "g".to_string(), artifact: "b".to_string(), versions: None });
    known.push(Known {
        group_id: "g".to_string(),
        artifact: "c".to_string(),
        versions: Some((None, vec!["9".to_string()])),
    });
    assert_eq!(project, grind(vec![dep("g", "a", "1.0")]));
    assert_eq!(
        execute_add(&mut project, &requests, &known),
        AddStep::Found(
            vec![dep("g", "a", "1.0"), dep("g", "c", "9")],
            vec![coordinate("g", "b", "")]
        )
    );
    assert_eq!(project, grind(vec![dep("g", "a", "1.0"), dep("g", "c", "9")]));
}
