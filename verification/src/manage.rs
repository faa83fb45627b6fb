//! Adding dependencies to a project and removing them.

use crate::config::{contains_dependency, Dependency, DependencyView, Grind};
use crate::install::{artifact_index, find_artifact};
use crate::text::{find_first, first_sep, slice_chars, split, split_any, str_eq, to_chars};
use vstd::prelude::*;
use vstd::string::StringExecFns;

verus! {

/// What a request such as `group/artifact@version` names.
#[derive(Debug, PartialEq, Eq)]
pub struct Coordinate {
    pub group_id: String,
    pub artifact: String,
    pub version: String,
}

/// What a `Coordinate` stands for.
#[verifier::ext_equal]
pub struct CoordinateView {
    pub group_id: Seq<char>,
    pub artifact: Seq<char>,
    pub version: Seq<char>,
}

impl DeepView for Coordinate {
    type V = CoordinateView;

    open spec fn deep_view(&self) -> CoordinateView {
        CoordinateView { group_id: self.group_id@, artifact: self.artifact@, version: self.version@ }
    }
}

/// The group and the artifact that `request` names: what stands before the
/// first slash, and what stands between the first and the second.  Both are
/// empty when the request has no slash.
pub open spec fn group_and_artifact(request: Seq<char>) -> (Seq<char>, Seq<char>) {
    let parts = split_any(request, seq!['/']);
    if parts.len() >= 2 {
        (parts[0], parts[1])
    } else {
        (Seq::empty(), Seq::empty())
    }
}

/// What `request` names: group and artifact as above, and as version what
/// follows the first `@` of the artifact, which then ends before it.
pub open spec fn coordinate_of(request: Seq<char>) -> CoordinateView {
    let (group, rest) = group_and_artifact(request);
    let k = first_sep(rest, seq!['@']) as int;
    if k < rest.len() {
        CoordinateView { group_id: group, artifact: rest.take(k), version: rest.skip(k + 1) }
    } else {
        CoordinateView { group_id: group, artifact: rest, version: Seq::empty() }
    }
}

/// The group and the artifact that `request` names.
pub fn parse_group_and_artifact(request: &str) -> (out: (String, String))
    ensures
        out.deep_view() == group_and_artifact(request@),
{
    let mut seps: Vec<char> = Vec::new();
    seps.push('/');
    assert(seps@ =~= seq!['/']);
    let parts = split(request, &seps);
    if parts.len() >= 2 {
        assert(parts.deep_view()[0] == parts@[0]@);
        assert(parts.deep_view()[1] == parts@[1]@);
        (parts[0].clone(), parts[1].clone())
    } else {
        (String::new(), String::new())
    }
}

/// What `request` names.
pub fn parse_coordinate(request: &str) -> (out: Coordinate)
    ensures
        out.deep_view() == coordinate_of(request@),
{
    let (group_id, rest) = parse_group_and_artifact(request);
    let mut seps: Vec<char> = Vec::new();
    seps.push('@');
    assert(seps@ =~= seq!['@']);
    let chars = to_chars(rest.as_str());
    let k = find_first(&chars, &seps);
    if k < chars.len() {
        let artifact = slice_chars(&chars, 0, k);
        let version = slice_chars(&chars, k + 1, chars.len());
        let out = Coordinate { group_id, artifact, version };
        assert(out.deep_view() =~= coordinate_of(request@));
        out
    } else {
        let out = Coordinate { group_id, artifact: rest, version: String::new() };
        assert(out.deep_view() =~= coordinate_of(request@));
        out
    }
}

/// The dependency that answers a request for `version` of an artifact of
/// which the repository knows the versions `versions` and the release
/// `release`: the asked version where it is known; the release where no
/// version was asked; else none.  Its scope is `compile`.
pub open spec fn chosen(
    group_id: Seq<char>,
    artifact: Seq<char>,
    version: Seq<char>,
    release: Option<Seq<char>>,
    versions: Seq<Seq<char>>,
) -> Option<DependencyView> {
    if version.len() > 0 {
        if versions.contains(version) {
            Some(
                DependencyView {
                    group_id,
                    artifact_id: artifact,
                    version,
                    scope: Some("compile"@),
                },
            )
        } else {
            None
        }
    } else {
        match release {
            Some(v) => Some(
                DependencyView {
                    group_id,
                    artifact_id: artifact,
                    version: v,
                    scope: Some("compile"@),
                },
            ),
            None => None,
        }
    }
}

/// Whether `wanted` is one of `list`.
pub fn contains_text(list: &Vec<String>, wanted: &str) -> (found: bool)
    ensures
        found == list.deep_view().contains(wanted@),
{
    let mut i: usize = 0;
    while i < list.len()
        invariant
            i <= list.len(),
            forall|j: int| 0 <= j < i ==> list.deep_view()[j] != wanted@,
        decreases list.len() - i,
    {
        assert(list.deep_view()[i as int] == list@[i as int]@);
        if str_eq(list[i].as_str(), wanted) {
            return true;
        }
        i += 1;
    }
    false
}

/// The dependency that answers a request, given what the repository knows of
/// the artifact.
pub fn search_deps(
    group_id: &str,
    artifact: &str,
    version: &str,
    release: &Option<String>,
    versions: &Vec<String>,
) -> (out: Option<Dependency>)
    ensures
        out.deep_view() == chosen(
            group_id@,
            artifact@,
            version@,
            release.deep_view(),
            versions.deep_view(),
        ),
{
    let picked: Option<String> = if !version.is_empty() {
        if contains_text(versions, version) {
            Some(String::from_str(version))
        } else {
            None
        }
    } else {
        match release {
            Some(v) => Some(v.clone()),
            None => None,
        }
    };
    match picked {
        Some(v) => {
            let out = Dependency {
                groupId: String::from_str(group_id),
                artifactId: String::from_str(artifact),
                version: v,
                scope: Some(String::from_str("compile")),
            };
            assert(Some(out.deep_view()) =~= chosen(
                group_id@,
                artifact@,
                version@,
                release.deep_view(),
                versions.deep_view(),
            ));
            Some(out)
        },
        None => None,
    }
}

/// `deps` with each of `candidates` that is not yet among them at the end.
pub open spec fn with_candidates(deps: Seq<DependencyView>, candidates: Seq<DependencyView>) -> Seq<
    DependencyView,
>
    decreases candidates.len(),
{
    if candidates.len() == 0 {
        deps
    } else {
        let before = with_candidates(deps, candidates.drop_last());
        if before.contains(candidates.last()) {
            before
        } else {
            before.push(candidates.last())
        }
    }
}

/// Adds to the project's dependencies each of `candidates` that is not yet
/// among them.
pub fn update_grind(grind: &mut Grind, candidates: &Vec<Dependency>)
    ensures
        final(grind).deep_view().dependencies == with_candidates(
            old(grind).deep_view().dependencies,
            candidates.deep_view(),
        ),
        final(grind).deep_view() == (crate::config::ProjectView {
            dependencies: final(grind).deep_view().dependencies,
            ..old(grind).deep_view()
        }),
{
    let ghost start = grind.deep_view();
    let mut i: usize = 0;
    assert(candidates.deep_view().take(0) =~= Seq::<DependencyView>::empty());
    while i < candidates.len()
        invariant
            i <= candidates.len(),
            grind.deep_view().dependencies == with_candidates(
                start.dependencies,
                candidates.deep_view().take(i as int),
            ),
            grind.deep_view() == (crate::config::ProjectView {
                dependencies: grind.deep_view().dependencies,
                ..start
            }),
        decreases candidates.len() - i,
    {
        let ghost before = grind.deep_view().dependencies;
        proof {
            let next = candidates.deep_view().take(i + 1);
            assert(next.drop_last() =~= candidates.deep_view().take(i as int));
            assert(next.last() == candidates@[i as int].deep_view());
        }
        if !contains_dependency(&grind.project.dependencies, &candidates[i]) {
            grind.project.dependencies.push(candidates[i].clone());
            assert(grind.deep_view().dependencies =~= before.push(
                candidates@[i as int].deep_view(),
            ));
        }
        i += 1;
    }
    assert(candidates.deep_view().take(candidates.len() as int) =~= candidates.deep_view());
}

/// A dependency that stands for the artifact `artifact` of the group
/// `group_id`.
pub open spec fn probe(group_id: Seq<char>, artifact: Seq<char>) -> DependencyView {
    DependencyView { group_id, artifact_id: artifact, version: Seq::empty(), scope: None }
}

/// Takes out of `deps` the first dependency for the artifact `artifact` of
/// the group `group_id`, and returns it; leaves `deps` as they are where
/// there is none.
pub fn remove_dependency(deps: &mut Vec<Dependency>, group_id: &str, artifact: &str) -> (out:
    Option<Dependency>)
    ensures
        ({
            let before = old(deps).deep_view();
            let i = artifact_index(before, probe(group_id@, artifact@)) as int;
            if i < before.len() {
                out.deep_view() == Some(before[i]) && final(deps).deep_view() == before.remove(i)
            } else {
                out is None && final(deps).deep_view() == before
            }
        }),
{
    let ghost before = deps.deep_view();
    let wanted = Dependency {
        groupId: String::from_str(group_id),
        artifactId: String::from_str(artifact),
        version: String::new(),
        scope: None,
    };
    assert(wanted.deep_view() =~= probe(group_id@, artifact@));
    let i = find_artifact(deps, &wanted);
    if i < deps.len() {
        assert(before[i as int] == deps@[i as int].deep_view());
        let taken = deps.remove(i);
        assert(deps.deep_view() =~= before.remove(i as int));
        Some(taken)
    } else {
        None
    }
}

/// What requests to remove come to: the dependencies that are left, those
/// removed, and the group and artifact of each request that named none, all
/// in the order of the requests.
pub struct RemovalView {
    pub left: Seq<DependencyView>,
    pub removed: Seq<DependencyView>,
    pub unmatched: Seq<(Seq<char>, Seq<char>)>,
}

/// What the requests `requests` to remove come to on the dependencies `deps`:
/// each request takes out the first dependency for the artifact it names, or
/// is noted as unmatched where there is none.
pub open spec fn after_removal(deps: Seq<DependencyView>, requests: Seq<Seq<char>>) -> RemovalView
    decreases requests.len(),
{
    if requests.len() == 0 {
        RemovalView { left: deps, removed: Seq::empty(), unmatched: Seq::empty() }
    } else {
        let before = after_removal(deps, requests.drop_last());
        let (group, artifact) = group_and_artifact(requests.last());
        let i = artifact_index(before.left, probe(group, artifact)) as int;
        if i < before.left.len() {
            RemovalView {
                left: before.left.remove(i),
                removed: before.removed.push(before.left[i]),
                unmatched: before.unmatched,
            }
        } else {
            RemovalView {
                left: before.left,
                removed: before.removed,
                unmatched: before.unmatched.push((group, artifact)),
            }
        }
    }
}

/// What was removed from a project, and which requests named nothing to
/// remove.
#[derive(Debug, PartialEq, Eq)]
pub struct Removal {
    pub removed: Vec<Dependency>,
    pub unmatched: Vec<(String, String)>,
}

/// Removes from the project, for each of the requests `requests`, the first
/// dependency for the artifact it names.  Returns those removed, and the
/// group and artifact of each request that named none.
pub fn execute_remove(grind: &mut Grind, requests: &Vec<String>) -> (out: Removal)
    ensures
        final(grind).deep_view().dependencies == after_removal(
            old(grind).deep_view().dependencies,
            requests.deep_view(),
        ).left,
        out.removed.deep_view() == after_removal(
            old(grind).deep_view().dependencies,
            requests.deep_view(),
        ).removed,
        out.unmatched.deep_view() == after_removal(
            old(grind).deep_view().dependencies,
            requests.deep_view(),
        ).unmatched,
        final(grind).deep_view() == (crate::config::ProjectView {
            dependencies: final(grind).deep_view().dependencies,
            ..old(grind).deep_view()
        }),
{
    let ghost start = grind.deep_view();
    let mut removed: Vec<Dependency> = Vec::new();
    let mut unmatched: Vec<(String, String)> = Vec::new();
    let mut i: usize = 0;
    assert(requests.deep_view().take(0) =~= Seq::<Seq<char>>::empty());
    assert(removed.deep_view() =~= Seq::<DependencyView>::empty());
    assert(unmatched.deep_view() =~= Seq::<(Seq<char>, Seq<char>)>::empty());
    while i < requests.len()
        invariant
            i <= requests.len(),
            after_removal(start.dependencies, requests.deep_view().take(i as int)) == (
            RemovalView {
                left: grind.deep_view().dependencies,
                removed: removed.deep_view(),
                unmatched: unmatched.deep_view(),
            }),
            grind.deep_view() == (crate::config::ProjectView {
                dependencies: grind.deep_view().dependencies,
                ..start
            }),
        decreases requests.len() - i,
    {
        let ghost removed0 = removed.deep_view();
        let ghost unmatched0 = unmatched.deep_view();
        proof {
            let next = requests.deep_view().take(i + 1);
            assert(next.drop_last() =~= requests.deep_view().take(i as int));
            assert(next.last() == requests@[i as int]@);
        }
        let (group_id, artifact) = parse_group_and_artifact(requests[i].as_str());
        match remove_dependency(
            &mut grind.project.dependencies,
            group_id.as_str(),
            artifact.as_str(),
        ) {
            Some(taken) => {
                removed.push(taken);
                assert(removed.deep_view() =~= removed0.push(taken.deep_view()));
            },
            None => {
                let ghost pair = (group_id@, artifact@);
                unmatched.push((group_id, artifact));
                assert(unmatched.deep_view() =~= unmatched0.push(pair));
            },
        }
        i += 1;
    }
    assert(requests.deep_view().take(requests.len() as int) =~= requests.deep_view());
    Removal { removed, unmatched }
}

/// What the repository knows of an artifact: its release and its versions,
/// or nothing where asking failed.
#[derive(Debug, PartialEq, Eq)]
pub struct Known {
    pub group_id: String,
    pub artifact: String,
    pub versions: Option<(Option<String>, Vec<String>)>,
}

/// What a `Known` stands for.
pub struct KnownView {
    pub group_id: Seq<char>,
    pub artifact: Seq<char>,
    pub versions: Option<(Option<Seq<char>>, Seq<Seq<char>>)>,
}

impl DeepView for Known {
    type V = KnownView;

    open spec fn deep_view(&self) -> KnownView {
        KnownView {
            group_id: self.group_id@,
            artifact: self.artifact@,
            versions: self.versions.deep_view(),
        }
    }
}

/// The position of the first of `known` that is about the artifact
/// `artifact` of the group `group_id`, or the length of `known`.
pub open spec fn known_index(known: Seq<KnownView>, group_id: Seq<char>, artifact: Seq<char>) -> nat
    decreases known.len(),
{
    if known.len() == 0 {
        0
    } else if known[0].group_id == group_id && known[0].artifact == artifact {
        0
    } else {
        1 + known_index(known.skip(1), group_id, artifact)
    }
}

proof fn lemma_known_index(known: Seq<KnownView>, group_id: Seq<char>, artifact: Seq<char>, i: int)
    requires
        0 <= i <= known.len(),
        forall|j: int|
            0 <= j < i ==> !((#[trigger] known[j]).group_id == group_id && known[j].artifact
                == artifact),
        i == known.len() || (known[i].group_id == group_id && known[i].artifact == artifact),
    ensures
        known_index(known, group_id, artifact) == i,
    decreases i,
{
    if i > 0 {
        assert(!(known[0].group_id == group_id && known[0].artifact == artifact));
        assert forall|j: int| 0 <= j < i - 1 implies !((#[trigger] known.skip(1)[j]).group_id
            == group_id && known.skip(1)[j].artifact == artifact) by {
            assert(known.skip(1)[j] == known[j + 1]);
        }
        lemma_known_index(known.skip(1), group_id, artifact, i - 1);
    }
}

/// What becomes of requests to add dependencies.
#[derive(Debug, PartialEq, Eq)]
pub enum AddStep {
    /// Ask the repository about this artifact of this group, and ask again.
    Fetch(String, String),
    /// These dependencies answer the requests; these requests have no answer.
    Found(Vec<Dependency>, Vec<Coordinate>),
}

/// What an `AddStep` stands for.
pub enum AddStepView {
    Fetch(Seq<char>, Seq<char>),
    Found(Seq<DependencyView>, Seq<CoordinateView>),
}

impl DeepView for AddStep {
    type V = AddStepView;

    open spec fn deep_view(&self) -> AddStepView {
        match self {
            AddStep::Fetch(group_id, artifact) => AddStepView::Fetch(group_id@, artifact@),
            AddStep::Found(found, unanswered) => AddStepView::Found(
                found.deep_view(),
                unanswered.deep_view(),
            ),
        }
    }
}

/// What becomes of the requests `requests`, given what is known of the
/// repository: the first artifact among them of which nothing is known yet is
/// asked for; when all are known, each request is answered in order.
pub open spec fn answers(requests: Seq<Seq<char>>, known: Seq<KnownView>) -> AddStepView
    decreases requests.len(),
{
    if requests.len() == 0 {
        AddStepView::Found(Seq::empty(), Seq::empty())
    } else {
        match answers(requests.drop_last(), known) {
            AddStepView::Fetch(g, a) => AddStepView::Fetch(g, a),
            AddStepView::Found(found, unanswered) => {
                let wanted = coordinate_of(requests.last());
                let i = known_index(known, wanted.group_id, wanted.artifact) as int;
                if i >= known.len() {
                    AddStepView::Fetch(wanted.group_id, wanted.artifact)
                } else {
                    let answer = match known[i].versions {
                        Some((release, versions)) => chosen(
                            wanted.group_id,
                            wanted.artifact,
                            wanted.version,
                            release,
                            versions,
                        ),
                        None => None,
                    };
                    match answer {
                        Some(d) => AddStepView::Found(found.push(d), unanswered),
                        None => AddStepView::Found(found, unanswered.push(wanted)),
                    }
                }
            },
        }
    }
}

/// The position in `known` of what is known of an artifact.
pub fn find_known(known: &Vec<Known>, group_id: &str, artifact: &str) -> (i: usize)
    ensures
        i == known_index(known.deep_view(), group_id@, artifact@),
        i <= known.len(),
{
    let mut i: usize = 0;
    while i < known.len()
        invariant
            i <= known.len(),
            forall|j: int|
                0 <= j < i ==> !((#[trigger] known.deep_view()[j]).group_id == group_id@
                    && known.deep_view()[j].artifact == artifact@),
        decreases known.len() - i,
    {
        assert(known.deep_view()[i as int] == known@[i as int].deep_view());
        if str_eq(known[i].group_id.as_str(), group_id) && str_eq(
            known[i].artifact.as_str(),
            artifact,
        ) {
            proof {
                lemma_known_index(known.deep_view(), group_id@, artifact@, i as int);
            }
            return i;
        }
        i += 1;
    }
    proof {
        lemma_known_index(known.deep_view(), group_id@, artifact@, i as int);
    }
    i
}

/// Serves the requests `requests` to add dependencies to the project, given
/// what is known of the repository.  Where something is still to be asked,
/// the project stays as it is; else the dependencies found are added to it,
/// each once.
pub fn execute_add(grind: &mut Grind, requests: &Vec<String>, known: &Vec<Known>) -> (out: AddStep)
    ensures
        out.deep_view() == answers(requests.deep_view(), known.deep_view()),
        final(grind).deep_view().dependencies == match out.deep_view() {
            AddStepView::Fetch(_, _) => old(grind).deep_view().dependencies,
            AddStepView::Found(found, _) => with_candidates(
                old(grind).deep_view().dependencies,
                found,
            ),
        },
        final(grind).deep_view() == (crate::config::ProjectView {
            dependencies: final(grind).deep_view().dependencies,
            ..old(grind).deep_view()
        }),
{
    let mut found: Vec<Dependency> = Vec::new();
    let mut unanswered: Vec<Coordinate> = Vec::new();
    let mut i: usize = 0;
    assert(requests.deep_view().take(0) =~= Seq::<Seq<char>>::empty());
    assert(found.deep_view() =~= Seq::<DependencyView>::empty());
    assert(unanswered.deep_view() =~= Seq::<CoordinateView>::empty());
    while i < requests.len()
        invariant
            i <= requests.len(),
            *grind == *old(grind),
            answers(requests.deep_view().take(i as int), known.deep_view()) == AddStepView::Found(
                found.deep_view(),
                unanswered.deep_view(),
            ),
        decreases requests.len() - i,
    {
        let ghost found0 = found.deep_view();
        let ghost unanswered0 = unanswered.deep_view();
        proof {
            let next = requests.deep_view().take(i + 1);
            assert(next.drop_last() =~= requests.deep_view().take(i as int));
            assert(next.last() == requests@[i as int]@);
        }
        let wanted = parse_coordinate(requests[i].as_str());
        let k = find_known(known, wanted.group_id.as_str(), wanted.artifact.as_str());
        if k >= known.len() {
            proof {
                lemma_fetch_stands(requests.deep_view(), known.deep_view(), i + 1);
            }
            return AddStep::Fetch(wanted.group_id, wanted.artifact);
        }
        assert(known.deep_view()[k as int] == known@[k as int].deep_view());
        let answer = match &known[k].versions {
            Some((release, versions)) => search_deps(
                wanted.group_id.as_str(),
                wanted.artifact.as_str(),
                wanted.version.as_str(),
                release,
                versions,
            ),
            None => None,
        };
        match answer {
            Some(d) => {
                found.push(d);
                assert(found.deep_view() =~= found0.push(d.deep_view()));
            },
            None => {
                unanswered.push(wanted);
                assert(unanswered.deep_view() =~= unanswered0.push(wanted.deep_view()));
            },
        }
        i += 1;
    }
    assert(requests.deep_view().take(requests.len() as int) =~= requests.deep_view());
    update_grind(grind, &found);
    AddStep::Found(found, unanswered)
}

/// Once something is to be asked, it stays what is to be asked, however many
/// requests follow.
pub proof fn lemma_fetch_stands(requests: Seq<Seq<char>>, known: Seq<KnownView>, n: int)
    requires
        0 <= n <= requests.len(),
        answers(requests.take(n), known) is Fetch,
    ensures
        answers(requests, known) == answers(requests.take(n), known),
    decreases requests.len() - n,
{
    if n < requests.len() {
        assert(requests.take(n + 1).drop_last() =~= requests.take(n));
        lemma_fetch_stands(requests, known, n + 1);
    } else {
        assert(requests.take(n) =~= requests);
    }
}

} // verus!
