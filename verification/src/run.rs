//! The command lines with which the project is compiled, packed, run and
//! tested.

use crate::config::{Grind, ProjectView, RunArgs};
use crate::text::{join, join_strings};
use vstd::prelude::*;
use vstd::string::StringExecFns;

verus! {

/// The main class of a project: `group.artifact`.
pub open spec fn main_class_of(project: ProjectView) -> Seq<char> {
    project.group_id + "."@ + project.artifact_id
}

/// The main class of the project.
pub fn main_class(grind: &Grind) -> (out: String)
    ensures
        out@ == main_class_of(grind.deep_view()),
{
    let mut out = grind.project.groupId.clone();
    out.append(".");
    out.append(grind.project.artifactId.as_str());
    out
}

/// The archive that the project is packed into: `build/artifact.jar`.
pub fn output_jar(grind: &Grind) -> (out: String)
    ensures
        out@ == "build/"@ + grind.deep_view().artifact_id + ".jar"@,
{
    let mut out = String::from_str("build/");
    out.append(grind.project.artifactId.as_str());
    out.append(".jar");
    out
}

/// The command that runs a project with the arguments `args`, after the
/// environment variables `envs` where there are any.
pub open spec fn run_command(project: ProjectView, envs: Seq<char>, args: Seq<Seq<char>>) -> Seq<
    char,
> {
    let command = "java -cp \"target:libs/*\" "@ + main_class_of(project) + " "@ + join(args, " "@);
    if envs.len() > 0 {
        envs + " "@ + command
    } else {
        command
    }
}

/// The command that runs the project.
pub fn run_command_line(grind: &Grind, args: &RunArgs) -> (out: String)
    ensures
        out@ == run_command(grind.deep_view(), args.envs@, args.args.deep_view()),
{
    let mut command = String::from_str("java -cp \"target:libs/*\" ");
    let main = main_class(grind);
    command.append(main.as_str());
    command.append(" ");
    let joined = join_strings(&args.args, " ");
    command.append(joined.as_str());
    if !args.envs.as_str().is_empty() {
        let mut out = args.envs.clone();
        out.append(" ");
        out.append(command.as_str());
        out
    } else {
        command
    }
}

/// The command that runs the tests `tests` of the project.
pub fn test_command_line(tests: &Vec<String>) -> (out: String)
    ensures
        out@
            == "java -cp \"target:target/test:libs/*:plugins/TestTube/libs/*:plugins/TestTube/TestTube.jar\" org.grind.TestTube "@
            + join(tests.deep_view(), " "@),
{
    let mut out = String::from_str(
        "java -cp \"target:target/test:libs/*:plugins/TestTube/libs/*:plugins/TestTube/TestTube.jar\" org.grind.TestTube ",
    );
    let joined = join_strings(tests, " ");
    out.append(joined.as_str());
    out
}

/// The manifest of the thin archive of a project: its main class, and the
/// libraries `jars` as its class path where there are any.
pub open spec fn thin_manifest(project: ProjectView, jars: Seq<Seq<char>>) -> Seq<char> {
    "Main-Class: "@ + main_class_of(project) + (if jars.len() > 0 {
        "\nClass-Path: "@ + join(jars, "\n    "@)
    } else {
        Seq::empty()
    }) + "\n"@
}

/// The manifest of the thin archive of the project.
pub fn build_manifest(grind: &Grind, external_jars: &Vec<String>) -> (out: String)
    ensures
        out@ == thin_manifest(grind.deep_view(), external_jars.deep_view()),
{
    let mut out = String::from_str("Main-Class: ");
    let main = main_class(grind);
    out.append(main.as_str());
    if external_jars.len() > 0 {
        out.append("\nClass-Path: ");
        let joined = join_strings(external_jars, "\n    ");
        out.append(joined.as_str());
        assert(out@ =~= "Main-Class: "@ + main_class_of(grind.deep_view()) + ("\nClass-Path: "@
            + join(external_jars.deep_view(), "\n    "@)));
    } else {
        assert(out@ =~= "Main-Class: "@ + main_class_of(grind.deep_view()) + Seq::<char>::empty());
    }
    out.append("\n");
    out
}

/// The command that packs the compiled classes of the project into its thin
/// archive.
pub fn jar_command(grind: &Grind) -> (out: String)
    ensures
        out@ == "jar cfm build/"@ + grind.deep_view().artifact_id
            + ".jar src/main/resources/manifest.mf -C target ."@,
{
    let mut out = String::from_str("jar cfm build/");
    out.append(grind.project.artifactId.as_str());
    out.append(".jar src/main/resources/manifest.mf -C target .");
    out
}

} // verus!
