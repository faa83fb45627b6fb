use grind::naming::{
    is_valid_java_identifier, parse_project_name, validate_artifact_id, validate_namespace,
    NameError,
};

#[test]
fn identifiers_are_letters_digits_underscore_and_dollar() {
    assert!(is_valid_java_identifier("HelloWorld"));
    assert!(is_valid_java_identifier("_a$1"));
    assert!(!is_valid_java_identifier(""));
    assert!(!is_valid_java_identifier("1abc"));
    assert!(!is_valid_java_identifier("a-b"));
    assert!(!is_valid_java_identifier("é"));
}

#[test]
fn namespaces_are_identifiers_with_dots_between() {
    assert_eq!(validate_namespace("com.example"), Ok("com.example"));
    assert_eq!(validate_namespace("com"), Ok("com"));
    assert_eq!(validate_namespace("com..example"), Err(NameError::Namespace));
    assert_eq!(validate_namespace(""), Err(NameError::Namespace));
    assert_eq!(validate_namespace("com.1x"), Err(NameError::Namespace));
    assert_eq!(validate_artifact_id("App"), Ok("App"));
    assert_eq!(validate_artifact_id("my.App"), Err(NameError::ArtifactId));
}

#[test]
fn project_names_have_two_parts() {
    assert_eq!(
        parse_project_name("com.example/HelloWorld"),
        Ok(("com.example".to_string(), "HelloWorld".to_string()))
    );
    assert_eq!(parse_project_name("HelloWorld"), Err(NameError::Shape));
    assert_eq!(parse_project_name("a/b/c"), Err(NameError::Shape));
    assert_eq!(parse_project_name("/b"), Err(NameError::Namespace));
    assert_eq!(parse_project_name("a/"), Err(NameError::ArtifactId));
    assert_eq!(parse_project_name("1/2"), Err(NameError::Namespace));
}

#[test]
fn refusals_come_in_words() {
    assert_eq!(
        NameError::Shape.message(),
        "⚠️ Input must contain exactly one '/' and two non-empty parts"
    );
    assert_eq!(
        NameError::Namespace.message(),
        "⚠️ Your namespace contains an invalid java identifier"
    );
    assert_eq!(
        NameError::ArtifactId.message(),
        "⚠️ Your artifactId contains an invalid java identifier"
    );
}
