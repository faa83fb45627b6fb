use grind::config::{Grind, Project, RunArgs};
use grind::run::{build_manifest, run_command_line, jar_command, main_class, output_jar, test_command_line};
use grind::tasks::{execute_task, task_for, TaskChoice};

fn tasks() -> Vec<(String, String)> {
    vec![
        ("clean".to_string(), "rm -rf target".to_string()),
        ("Deploy".to_string(), "scp build/app.jar host:".to_string()),
        ("CLEAN".to_string(), "never".to_string()),
    ]
}

fn grind() -> Grind {
    Grind {
        project: Project {
            groupId: "com.example".to_string(),
            artifactId: "App".to_string(),
            version: "1".to_string(),
            name: "App".to_string(),
            description: String::new(),
            dependencies: Vec::new(),
            tasks: tasks(),
            profiles: None,
        },
    }
}

#[test]
fn tasks_are_found_whatever_the_case() {
    assert_eq!(execute_task(&tasks(), "LIST"), TaskChoice::List);
    assert_eq!(execute_task(&tasks(), "list"), TaskChoice::List);
    assert_eq!(
        execute_task(&tasks(), "Clean"),
        TaskChoice::Run("clean".to_string(), "rm -rf target".to_string())
    );
    assert_eq!(
        execute_task(&tasks(), "deploy"),
        TaskChoice::Run("Deploy".to_string(), "scp build/app.jar host:".to_string())
    );
    assert_eq!(execute_task(&tasks(), "build"), TaskChoice::Unknown);
    assert_eq!(task_for(&tasks(), "clean", "list"), TaskChoice::List);
    assert_eq!(task_for(&tasks(), "list", "other"), TaskChoice::Unknown);
}

#[test]
fn the_project_is_run_by_its_main_class() {
    assert_eq!(main_class(&grind()), "com.example.App");
    assert_eq!(output_jar(&grind()), "build/App.jar");
    let args = RunArgs {
        flags: String::new(),
        envs: String::new(),
        args: vec!["a".to_string(), "b".to_string()],
    };
    assert_eq!(run_command_line(&grind(), &args), "java -cp \"target:libs/*\" com.example.App a b");
    let args = RunArgs { flags: String::new(), envs: "K=v".to_string(), args: Vec::new() };
    assert_eq!(run_command_line(&grind(), &args), "K=v java -cp \"target:libs/*\" com.example.App ");
}

#[test]
fn tests_are_run_by_the_test_runner() {
    assert_eq!(
        test_command_line(&vec!["A".to_string(), "B".to_string()]),
        "java -cp \"target:target/test:libs/*:plugins/TestTube/libs/*:plugins/TestTube/TestTube.jar\" org.grind.TestTube A B"
    );
}

#[test]
fn the_thin_archive_names_its_libraries() {
    assert_eq!(build_manifest(&grind(), &Vec::new()), "Main-Class: com.example.App\n");
    assert_eq!(
        build_manifest(&grind(), &vec!["libs/a.jar".to_string(), "libs/b.jar".to_string()]),
        "Main-Class: com.example.App\nClass-Path: libs/a.jar\n    libs/b.jar\n"
    );
    assert_eq!(
        jar_command(&grind()),
        "jar cfm build/App.jar src/main/resources/manifest.mf -C target ."
    );
}
