use grind::config::{get_envs, get_flags, get_run_args, Grind, Profile, Project, RunArgs};

fn grind() -> Grind {
    Grind {
        project: Project {
            groupId: "g".to_string(),
            artifactId: "a".to_string(),
            version: "1".to_string(),
            name: "a".to_string(),
            description: String::new(),
            dependencies: Vec::new(),
            tasks: Vec::new(),
            profiles: Some(vec![
                (
                    "dev".to_string(),
                    Profile {
                        flags: Some(vec!["-g".to_string(), "-Xlint".to_string()]),
                        envs: Some(vec![
                            ("A".to_string(), "1".to_string()),
                            ("B".to_string(), "two".to_string()),
                        ]),
                    },
                ),
                ("bare".to_string(), Profile { flags: None, envs: None }),
                (
                    "env".to_string(),
                    Profile { flags: None, envs: Some(vec![("K".to_string(), "v".to_string())]) },
                ),
            ]),
        },
    }
}

#[test]
fn flags_are_joined_with_blanks() {
    assert_eq!(get_flags(&grind(), "dev".to_string()), "-g -Xlint");
    assert_eq!(get_flags(&grind(), "bare".to_string()), "");
    assert_eq!(get_flags(&grind(), "none".to_string()), "");
}

#[test]
fn envs_are_written_as_assignments() {
    assert_eq!(get_envs(&grind(), "dev".to_string()), "A=1 B=two");
    assert_eq!(get_envs(&grind(), "env".to_string()), "K=v");
    assert_eq!(get_envs(&grind(), "bare".to_string()), "");
}

#[test]
fn a_leading_profile_name_is_taken_from_the_arguments() {
    let args = vec!["dev".to_string(), "x".to_string()];
    assert_eq!(
        get_run_args(&grind(), args),
        RunArgs {
            flags: "-g -Xlint".to_string(),
            envs: "A=1 B=two".to_string(),
            args: vec!["x".to_string()],
        }
    );
    let args = vec!["bare".to_string(), "x".to_string()];
    assert_eq!(
        get_run_args(&grind(), args.clone()),
        RunArgs { flags: String::new(), envs: String::new(), args }
    );
    assert_eq!(
        get_run_args(&grind(), Vec::new()),
        RunArgs { flags: String::new(), envs: String::new(), args: Vec::new() }
    );
}
