//! The project descriptor.

use crate::pom::clone_text;
use crate::table::{find_key, lookup};
use crate::text::{join, str_eq};
use vstd::prelude::*;
use vstd::string::StringExecFns;

verus! {

/// A dependency as the project descriptor and the lock name it.
#[allow(non_snake_case)]
#[derive(Debug, PartialEq, Eq, Hash)]
pub struct Dependency {
    pub groupId: String,
    pub artifactId: String,
    pub version: String,
    pub scope: Option<String>,
}

/// What a `Dependency` stands for.
#[verifier::ext_equal]
pub struct DependencyView {
    pub group_id: Seq<char>,
    pub artifact_id: Seq<char>,
    pub version: Seq<char>,
    pub scope: Option<Seq<char>>,
}

impl DeepView for Dependency {
    type V = DependencyView;

    open spec fn deep_view(&self) -> DependencyView {
        DependencyView {
            group_id: self.groupId@,
            artifact_id: self.artifactId@,
            version: self.version@,
            scope: self.scope.deep_view(),
        }
    }
}

impl Clone for Dependency {
    fn clone(&self) -> (out: Self)
        ensures
            out.deep_view() == self.deep_view(),
    {
        Dependency {
            groupId: self.groupId.clone(),
            artifactId: self.artifactId.clone(),
            version: self.version.clone(),
            scope: clone_text(&self.scope),
        }
    }
}

/// Whether two optional strings are both absent or read the same.
pub fn same_text(a: &Option<String>, b: &Option<String>) -> (same: bool)
    ensures
        same == (a.deep_view() == b.deep_view()),
{
    match a {
        Some(x) => match b {
            Some(y) => str_eq(x.as_str(), y.as_str()),
            None => false,
        },
        None => b.is_none(),
    }
}

impl Dependency {
    /// Whether `self` and `other` agree in all four fields.
    pub fn same_as(&self, other: &Dependency) -> (same: bool)
        ensures
            same == (self.deep_view() == other.deep_view()),
    {
        self.groupId == other.groupId && self.artifactId == other.artifactId && self.version
            == other.version && same_text(&self.scope, &other.scope)
    }

    /// Whether `self` and `other` name the same artifact of the same group.
    pub fn same_artifact(&self, other: &Dependency) -> (same: bool)
        ensures
            same == (self.groupId@ == other.groupId@ && self.artifactId@ == other.artifactId@),
    {
        self.groupId == other.groupId && self.artifactId == other.artifactId
    }
}

/// Whether `dep` is one of `list`.
pub fn contains_dependency(list: &Vec<Dependency>, dep: &Dependency) -> (found: bool)
    ensures
        found == list.deep_view().contains(dep.deep_view()),
{
    let mut i: usize = 0;
    while i < list.len()
        invariant
            i <= list.len(),
            forall|j: int| 0 <= j < i ==> list.deep_view()[j] != dep.deep_view(),
        decreases list.len() - i,
    {
        assert(list.deep_view()[i as int] == list@[i as int].deep_view());
        if list[i].same_as(dep) {
            return true;
        }
        i += 1;
    }
    false
}

/// Whether two lists hold the same dependencies in the same order.
pub fn same_dependencies(a: &Vec<Dependency>, b: &Vec<Dependency>) -> (same: bool)
    ensures
        same == (a.deep_view() == b.deep_view()),
{
    if a.len() != b.len() {
        assert(a.deep_view().len() != b.deep_view().len());
        return false;
    }
    let mut i: usize = 0;
    while i < a.len()
        invariant
            i <= a.len(),
            a.len() == b.len(),
            forall|j: int| 0 <= j < i ==> a.deep_view()[j] == b.deep_view()[j],
        decreases a.len() - i,
    {
        assert(a.deep_view()[i as int] == a@[i as int].deep_view());
        assert(b.deep_view()[i as int] == b@[i as int].deep_view());
        if !a[i].same_as(&b[i]) {
            return false;
        }
        i += 1;
    }
    assert(a.deep_view() =~= b.deep_view());
    true
}

/// A copy of a list of dependencies.
pub fn clone_dependency_list(list: &Vec<Dependency>) -> (out: Vec<Dependency>)
    ensures
        out.deep_view() == list.deep_view(),
{
    let mut out: Vec<Dependency> = Vec::new();
    let mut i: usize = 0;
    while i < list.len()
        invariant
            i <= list.len(),
            out.deep_view() == list.deep_view().take(i as int),
        decreases list.len() - i,
    {
        let ghost before = out.deep_view();
        out.push(list[i].clone());
        assert(out.deep_view() =~= before.push(list.deep_view()[i as int]));
        i += 1;
    }
    assert(out.deep_view() =~= list.deep_view());
    out
}

/// Compiler flags and environment variables under one name.
#[derive(Debug, PartialEq, Eq)]
pub struct Profile {
    pub flags: Option<Vec<String>>,
    pub envs: Option<Vec<(String, String)>>,
}

/// What a `Profile` stands for.
#[verifier::ext_equal]
pub struct ProfileView {
    pub flags: Option<Seq<Seq<char>>>,
    pub envs: Option<Seq<(Seq<char>, Seq<char>)>>,
}

impl DeepView for Profile {
    type V = ProfileView;

    open spec fn deep_view(&self) -> ProfileView {
        ProfileView { flags: self.flags.deep_view(), envs: self.envs.deep_view() }
    }
}

/// A project: its identity, its dependencies, its tasks and its profiles.
#[allow(non_snake_case)]
#[derive(Debug, PartialEq, Eq)]
pub struct Project {
    pub groupId: String,
    pub artifactId: String,
    pub version: String,
    pub name: String,
    pub description: String,
    pub dependencies: Vec<Dependency>,
    pub tasks: Vec<(String, String)>,
    pub profiles: Option<Vec<(String, Profile)>>,
}

/// What a `Project` stands for.
#[verifier::ext_equal]
pub struct ProjectView {
    pub group_id: Seq<char>,
    pub artifact_id: Seq<char>,
    pub version: Seq<char>,
    pub name: Seq<char>,
    pub description: Seq<char>,
    pub dependencies: Seq<DependencyView>,
    pub tasks: Seq<(Seq<char>, Seq<char>)>,
    pub profiles: Option<Seq<(Seq<char>, ProfileView)>>,
}

impl DeepView for Project {
    type V = ProjectView;

    open spec fn deep_view(&self) -> ProjectView {
        ProjectView {
            group_id: self.groupId@,
            artifact_id: self.artifactId@,
            version: self.version@,
            name: self.name@,
            description: self.description@,
            dependencies: self.dependencies.deep_view(),
            tasks: self.tasks.deep_view(),
            profiles: self.profiles.deep_view(),
        }
    }
}

/// The project descriptor.
#[derive(Debug, PartialEq, Eq)]
pub struct Grind {
    pub project: Project,
}

impl DeepView for Grind {
    type V = ProjectView;

    open spec fn deep_view(&self) -> ProjectView {
        self.project.deep_view()
    }
}

/// The profile of `project` with the name `profile`.
pub open spec fn profile_of(project: ProjectView, profile: Seq<char>) -> Option<ProfileView> {
    match project.profiles {
        Some(profiles) => lookup(profiles, profile),
        None => None,
    }
}

/// The flags of the profile `profile`, with a blank between them; nothing
/// where the project has no such profile or the profile has no flags.
pub open spec fn flags_of(project: ProjectView, profile: Seq<char>) -> Seq<char> {
    match profile_of(project, profile) {
        Some(p) => match p.flags {
            Some(flags) => join(flags, " "@),
            None => Seq::empty(),
        },
        None => Seq::empty(),
    }
}

/// The variables `envs`, each written as `name=value`.
pub open spec fn assignments(envs: Seq<(Seq<char>, Seq<char>)>) -> Seq<Seq<char>> {
    envs.map_values(|e: (Seq<char>, Seq<char>)| e.0 + "="@ + e.1)
}

/// The environment variables of the profile `profile` as `name=value`, with
/// a blank between them; nothing where the project has no such profile or the
/// profile has no variables.
pub open spec fn envs_of(project: ProjectView, profile: Seq<char>) -> Seq<char> {
    match profile_of(project, profile) {
        Some(p) => match p.envs {
            Some(envs) => join(assignments(envs), " "@),
            None => Seq::empty(),
        },
        None => Seq::empty(),
    }
}

fn find_profile<'a>(grind: &'a Grind, profile: &str) -> (out: Option<&'a Profile>)
    ensures
        out.deep_view() == profile_of(grind.deep_view(), profile@),
{
    match &grind.project.profiles {
        Some(profiles) => {
            let i = find_key(profiles, profile);
            if i < profiles.len() {
                assert(profiles.deep_view()[i as int].1 == profiles@[i as int].1.deep_view());
                Some(&profiles[i].1)
            } else {
                None
            }
        },
        None => None,
    }
}

/// The compiler flags of the profile `profile`.
pub fn get_flags(grind: &Grind, profile: String) -> (out: String)
    ensures
        out@ == flags_of(grind.deep_view(), profile@),
{
    match find_profile(grind, profile.as_str()) {
        Some(matched) => match &matched.flags {
            Some(flags) => crate::text::join_strings(flags, " "),
            None => String::new(),
        },
        None => String::new(),
    }
}

/// The environment variables of the profile `profile`.
pub fn get_envs(grind: &Grind, profile: String) -> (out: String)
    ensures
        out@ == envs_of(grind.deep_view(), profile@),
{
    match find_profile(grind, profile.as_str()) {
        Some(matched) => match &matched.envs {
            Some(envs) => {
                let mut pairs: Vec<String> = Vec::new();
                let mut i: usize = 0;
                assert(pairs.deep_view() =~= assignments(envs.deep_view()).take(0));
                while i < envs.len()
                    invariant
                        i <= envs.len(),
                        pairs.deep_view() == assignments(envs.deep_view()).take(i as int),
                    decreases envs.len() - i,
                {
                    let ghost before = pairs.deep_view();
                    let mut pair = envs[i].0.clone();
                    pair.append("=");
                    pair.append(envs[i].1.as_str());
                    assert(pair@ == assignments(envs.deep_view())[i as int]);
                    pairs.push(pair);
                    assert(pairs.deep_view() =~= before.push(assignments(envs.deep_view())[i as int]));
                    i += 1;
                }
                assert(pairs.deep_view() =~= assignments(envs.deep_view()));
                crate::text::join_strings(&pairs, " ")
            },
            None => String::new(),
        },
        None => String::new(),
    }
}

/// What a run is started with: flags, environment variables, arguments.
#[derive(Debug, PartialEq, Eq)]
pub struct RunArgs {
    pub flags: String,
    pub envs: String,
    pub args: Vec<String>,
}

/// Whether the first of `args` names a profile of `project` that has flags or
/// variables.
pub open spec fn names_profile(project: ProjectView, args: Seq<Seq<char>>) -> bool {
    args.len() > 0 && (flags_of(project, args[0]).len() > 0 || envs_of(project, args[0]).len() > 0)
}

/// Reads the first argument as the name of a profile: where the project has a
/// profile of that name with flags or variables, these are taken and the name
/// is removed from the arguments; else the arguments stay as they are.
pub fn get_run_args(grind: &Grind, args: Vec<String>) -> (out: RunArgs)
    ensures
        args.len() == 0 ==> out.flags@.len() == 0 && out.envs@.len() == 0,
        args.len() > 0 ==> out.flags@ == flags_of(grind.deep_view(), args.deep_view()[0])
            && out.envs@ == envs_of(grind.deep_view(), args.deep_view()[0]),
        out.args.deep_view() == if names_profile(grind.deep_view(), args.deep_view()) {
            args.deep_view().skip(1)
        } else {
            args.deep_view()
        },
{
    let mut rest = args;
    let ghost all = rest.deep_view();
    let mut flags = String::new();
    let mut envs = String::new();
    if rest.len() > 0 {
        assert(all[0] == rest@[0]@);
        flags = get_flags(grind, rest[0].clone());
        envs = get_envs(grind, rest[0].clone());
        if !flags.as_str().is_empty() || !envs.as_str().is_empty() {
            rest.remove(0);
            assert(rest.deep_view() =~= all.skip(1));
        }
    }
    RunArgs { flags, envs, args: rest }
}

} // verus!
