//! Resolution of the whole set of dependencies of a project.
//!
//! The direct dependencies are followed through their package descriptions
//! until nothing new turns up; of several versions of one artifact the newest
//! stays.

use crate::config::{
    clone_dependency_list, contains_dependency, Dependency, DependencyView, Grind,
};
use crate::lock::{lock_file, Lock, LockView};
use crate::pom::{
    document_index, effective_dependencies, get_effective_dependencies, lemma_document_found,
    lemma_resolve_sound,
    EffectiveDependency, EffectiveDependencyView, PomId, PomIdSet, PomIdView, PomStore,
    ResolveError, ResolveErrorView, StoreView,
};
use crate::text::{contains, contains_sub, replace, replace_all};
use crate::version::{
    lemma_version_order_antisymmetric, lemma_version_order_reflexive,
    lemma_version_order_transitive, version_order, version_sign,
};
use vstd::pervasive::VecAdditionalExecFns;
use vstd::prelude::*;
use vstd::string::StringExecFns;

verus! {

/// The address of the remote repository.
pub open spec fn repository() -> Seq<char> {
    "https://repo1.maven.org/maven2/"@
}

/// The directory of an artifact's version below the repository: the group
/// with its dots turned into slashes, the artifact and the version.
pub open spec fn remote_directory(group: Seq<char>, artifact: Seq<char>, version: Seq<char>) -> Seq<
    char,
> {
    repository() + replace_all(group, "."@, "/"@) + "/"@ + artifact + "/"@ + version + "/"@
}

/// The address of the package description of an artifact's version.
pub open spec fn pom_url(group: Seq<char>, artifact: Seq<char>, version: Seq<char>) -> Seq<char> {
    remote_directory(group, artifact, version) + artifact + "-"@ + version + ".pom"@
}

/// The address of the archive of an artifact's version.
pub open spec fn jar_url(group: Seq<char>, artifact: Seq<char>, version: Seq<char>) -> Seq<char> {
    remote_directory(group, artifact, version) + artifact + "-"@ + version + ".jar"@
}

/// The flat name `group_artifact_version` with `extension` behind it.
pub open spec fn flat_name(
    group: Seq<char>,
    artifact: Seq<char>,
    version: Seq<char>,
    extension: Seq<char>,
) -> Seq<char> {
    group + "_"@ + artifact + "_"@ + version + extension
}

fn remote_directory_of(group: &str, artifact: &str, version: &str) -> (out: String)
    ensures
        out@ == remote_directory(group@, artifact@, version@),
{
    let path = replace(group, ".", "/");
    let mut out = String::from_str("https://repo1.maven.org/maven2/");
    out.append(path.as_str());
    out.append("/");
    out.append(artifact);
    out.append("/");
    out.append(version);
    out.append("/");
    out
}

/// The address of the package description of an artifact's version.
pub fn build_pom_url(group: &str, artifact: &str, version: &str) -> (out: String)
    ensures
        out@ == pom_url(group@, artifact@, version@),
{
    let mut out = remote_directory_of(group, artifact, version);
    out.append(artifact);
    out.append("-");
    out.append(version);
    out.append(".pom");
    out
}

/// The address of the archive of an artifact's version.
pub fn build_jar_url(group: &str, artifact: &str, version: &str) -> (out: String)
    ensures
        out@ == jar_url(group@, artifact@, version@),
{
    let mut out = remote_directory_of(group, artifact, version);
    out.append(artifact);
    out.append("-");
    out.append(version);
    out.append(".jar");
    out
}

fn flat_name_of(group: &str, artifact: &str, version: &str, extension: &str) -> (out: String)
    ensures
        out@ == flat_name(group@, artifact@, version@, extension@),
{
    let mut out = String::from_str(group);
    out.append("_");
    out.append(artifact);
    out.append("_");
    out.append(version);
    out.append(extension);
    out
}

/// The name under which the package description of `dep` is cached.
pub fn pom_cache_name(dep: &Dependency) -> (out: String)
    ensures
        out@ == flat_name(dep.groupId@, dep.artifactId@, dep.version@, ".pdd"@),
{
    flat_name_of(dep.groupId.as_str(), dep.artifactId.as_str(), dep.version.as_str(), ".pdd")
}

/// The name under which the archive of `dep` lies in the library directory.
pub fn jar_file_name(dep: &Dependency) -> (out: String)
    ensures
        out@ == flat_name(dep.groupId@, dep.artifactId@, dep.version@, ".jar"@),
{
    flat_name_of(dep.groupId.as_str(), dep.artifactId.as_str(), dep.version.as_str(), ".jar")
}

/// Whether the version `source` is older than the version `target`.
pub fn is_version_newer(source: &str, target: &str) -> (newer: bool)
    ensures
        newer == (version_order(source@, target@) < 0),
{
    version_sign(source, target) < 0
}

/// Whether `a` and `b` name the same artifact of the same group.
pub open spec fn same_artifact(a: DependencyView, b: DependencyView) -> bool {
    a.group_id == b.group_id && a.artifact_id == b.artifact_id
}

/// The position of the first of `list` that names the artifact of `d`, or the
/// length of `list` when none does.
pub open spec fn artifact_index(list: Seq<DependencyView>, d: DependencyView) -> nat
    decreases list.len(),
{
    if list.len() == 0 {
        0
    } else if same_artifact(list[0], d) {
        0
    } else {
        1 + artifact_index(list.skip(1), d)
    }
}

/// Of `deps`, one dependency for each artifact: the first of those with the
/// newest version of that artifact, the artifacts in the order in which they
/// first occur.
pub open spec fn newest(deps: Seq<DependencyView>) -> Seq<DependencyView>
    decreases deps.len(),
{
    if deps.len() == 0 {
        Seq::empty()
    } else {
        let kept = newest(deps.drop_last());
        let d = deps.last();
        let i = artifact_index(kept, d) as int;
        if i >= kept.len() {
            kept.push(d)
        } else if version_order(kept[i].version, d.version) < 0 {
            kept.update(i, d)
        } else {
            kept
        }
    }
}

/// `artifact_index` is the position `i` when none before `i` names the
/// artifact and the one at `i` names it, or `i` is the end.
pub proof fn lemma_artifact_index(list: Seq<DependencyView>, d: DependencyView, i: int)
    requires
        0 <= i <= list.len(),
        forall|j: int| 0 <= j < i ==> !same_artifact(#[trigger] list[j], d),
        i == list.len() || same_artifact(list[i], d),
    ensures
        artifact_index(list, d) == i,
    decreases i,
{
    if i > 0 {
        assert(!same_artifact(list[0], d));
        assert forall|j: int| 0 <= j < i - 1 implies !same_artifact(
            #[trigger] list.skip(1)[j],
            d,
        ) by {
            assert(list.skip(1)[j] == list[j + 1]);
        }
        lemma_artifact_index(list.skip(1), d, i - 1);
    }
}

/// What `artifact_index` finds: none before it names the artifact, and the
/// one at it names the artifact unless it is the end.
pub proof fn lemma_artifact_index_found(list: Seq<DependencyView>, d: DependencyView)
    ensures
        artifact_index(list, d) <= list.len(),
        forall|j: int| 0 <= j < artifact_index(list, d) ==> !same_artifact(#[trigger] list[j], d),
        artifact_index(list, d) < list.len() ==> same_artifact(
            list[artifact_index(list, d) as int],
            d,
        ),
    decreases list.len(),
{
    if list.len() > 0 && !same_artifact(list[0], d) {
        lemma_artifact_index_found(list.skip(1), d);
        let k = artifact_index(list.skip(1), d) as int;
        assert forall|j: int| 0 <= j < k + 1 implies !same_artifact(#[trigger] list[j], d) by {
            if j > 0 {
                assert(list.skip(1)[j - 1] == list[j]);
            }
        }
        if k < list.skip(1).len() {
            assert(list.skip(1)[k] == list[k + 1]);
        }
    }
}

/// No two of `list` name the same artifact.
pub open spec fn distinct_artifacts(list: Seq<DependencyView>) -> bool {
    forall|i: int, j: int|
        0 <= i < j < list.len() ==> !same_artifact(#[trigger] list[i], #[trigger] list[j])
}

/// Some one of `kept` names the artifact of `d` in a version that is not
/// older than that of `d`.
pub open spec fn outdone(kept: Seq<DependencyView>, d: DependencyView) -> bool {
    exists|i: int|
        0 <= i < kept.len() && same_artifact(#[trigger] kept[i], d) && version_order(
            d.version,
            kept[i].version,
        ) <= 0
}

/// For every artifact among `deps`, `newest` keeps exactly one dependency; it
/// is one of `deps`, and no dependency of `deps` for that artifact has a
/// newer version.
#[verifier::rlimit(50)]
pub proof fn lemma_newest(deps: Seq<DependencyView>)
    ensures
        distinct_artifacts(newest(deps)),
        forall|i: int| 0 <= i < newest(deps).len() ==> deps.contains(#[trigger] newest(deps)[i]),
        forall|k: int| 0 <= k < deps.len() ==> outdone(newest(deps), #[trigger] deps[k]),
    decreases deps.len(),
{
    if deps.len() > 0 {
        let rest = deps.drop_last();
        let kept = newest(rest);
        let d = deps.last();
        let i = artifact_index(kept, d) as int;
        let out = newest(deps);
        lemma_newest(rest);
        lemma_artifact_index_found(kept, d);
        lemma_version_order_reflexive(d.version);
        assert(deps[deps.len() - 1] == d);
        assert forall|a: int| 0 <= a < out.len() implies deps.contains(#[trigger] out[a]) by {
            if a < kept.len() && out[a] == kept[a] {
                assert(rest.contains(kept[a]));
                let w = choose|w: int| 0 <= w < rest.len() && rest[w] == kept[a];
                assert(deps[w] == rest[w]);
            }
        }
        assert forall|a: int, b: int| 0 <= a < b < out.len() implies !same_artifact(
            #[trigger] out[a],
            #[trigger] out[b],
        ) by {
            if i >= kept.len() {
                if b < kept.len() {
                    assert(!same_artifact(kept[a], kept[b]));
                } else {
                    assert(!same_artifact(kept[a], d));
                }
            } else {
                assert(!same_artifact(kept[a], kept[b]));
                assert(same_artifact(kept[i], d));
            }
        }
        assert forall|k: int| 0 <= k < deps.len() implies outdone(out, #[trigger] deps[k]) by {
            if k < rest.len() {
                assert(deps[k] == rest[k]);
                assert(outdone(kept, rest[k]));
                let w = choose|w: int|
                    0 <= w < kept.len() && same_artifact(#[trigger] kept[w], rest[k])
                        && version_order(rest[k].version, kept[w].version) <= 0;
                if i < kept.len() && w == i && version_order(kept[i].version, d.version) < 0 {
                    lemma_version_order_transitive(rest[k].version, kept[i].version, d.version);
                    assert(same_artifact(out[i], deps[k]));
                } else {
                    assert(out[w] == kept[w]);
                }
            } else {
                if i >= kept.len() {
                    assert(out[kept.len() as int] == d);
                } else if version_order(kept[i].version, d.version) < 0 {
                    assert(out[i] == d);
                } else {
                    lemma_version_order_antisymmetric(kept[i].version, d.version);
                    assert(out[i] == kept[i]);
                }
            }
        }
    }
}

/// The position in `list` of the first dependency for the artifact of `dep`.
pub fn find_artifact(list: &Vec<Dependency>, dep: &Dependency) -> (i: usize)
    ensures
        i == artifact_index(list.deep_view(), dep.deep_view()),
        i <= list.len(),
{
    let mut i: usize = 0;
    while i < list.len()
        invariant
            i <= list.len(),
            forall|j: int|
                0 <= j < i ==> !same_artifact(#[trigger] list.deep_view()[j], dep.deep_view()),
        decreases list.len() - i,
    {
        assert(list.deep_view()[i as int] == list@[i as int].deep_view());
        if list[i].same_artifact(dep) {
            proof {
                lemma_artifact_index(list.deep_view(), dep.deep_view(), i as int);
            }
            return i;
        }
        i += 1;
    }
    proof {
        lemma_artifact_index(list.deep_view(), dep.deep_view(), i as int);
    }
    i
}

/// Keeps, for each artifact among `deps`, the dependency with the newest
/// version.
pub fn fix_collisions(deps: Vec<Dependency>) -> (out: Vec<Dependency>)
    ensures
        out.deep_view() == newest(deps.deep_view()),
        distinct_artifacts(out.deep_view()),
        forall|i: int|
            0 <= i < out.len() ==> deps.deep_view().contains(#[trigger] out.deep_view()[i]),
        forall|k: int|
            0 <= k < deps.len() ==> outdone(out.deep_view(), #[trigger] deps.deep_view()[k]),
{
    let mut out: Vec<Dependency> = Vec::new();
    let mut k: usize = 0;
    assert(deps.deep_view().take(0) =~= Seq::<DependencyView>::empty());
    assert(out.deep_view() =~= Seq::<DependencyView>::empty());
    while k < deps.len()
        invariant
            k <= deps.len(),
            out.deep_view() == newest(deps.deep_view().take(k as int)),
        decreases deps.len() - k,
    {
        let ghost before = out.deep_view();
        let dep = &deps[k];
        proof {
            let next = deps.deep_view().take(k + 1);
            assert(next.drop_last() =~= deps.deep_view().take(k as int));
            assert(next.last() == dep.deep_view());
        }
        let i = find_artifact(&out, dep);
        if i >= out.len() {
            out.push(dep.clone());
            assert(out.deep_view() =~= before.push(dep.deep_view()));
        } else {
            assert(before[i as int] == out@[i as int].deep_view());
            if is_version_newer(out[i].version.as_str(), dep.version.as_str()) {
                out.set(i, dep.clone());
                assert(out.deep_view() =~= before.update(i as int, dep.deep_view()));
            }
        }
        k += 1;
    }
    proof {
        assert(deps.deep_view().take(deps.len() as int) =~= deps.deep_view());
        lemma_newest(deps.deep_view());
    }
    out
}

/// The id of the package description of `d`.
pub open spec fn id_of(d: DependencyView) -> PomIdView {
    PomIdView { group_id: d.group_id, artifact_id: d.artifact_id, version: d.version }
}

/// Whether `e` is needed to compile or to run: its scope holds `compile` or
/// `runtime`.
pub open spec fn is_runtime(e: EffectiveDependencyView) -> bool {
    match e.scope {
        Some(s) => contains_sub(s, "compile"@) || contains_sub(s, "runtime"@),
        None => false,
    }
}

/// `e` as a dependency of the project.
pub open spec fn as_dependency(e: EffectiveDependencyView) -> DependencyView {
    DependencyView {
        group_id: e.group_id,
        artifact_id: e.artifact_id,
        version: e.version,
        scope: e.scope,
    }
}

/// Those of `list` that are needed to compile or to run.
pub open spec fn runtime_dependencies(list: Seq<EffectiveDependencyView>) -> Seq<DependencyView>
    decreases list.len(),
{
    if list.len() == 0 {
        Seq::empty()
    } else if is_runtime(list.last()) {
        runtime_dependencies(list.drop_last()).push(as_dependency(list.last()))
    } else {
        runtime_dependencies(list.drop_last())
    }
}

/// The dependencies that the package description `id` brings along, or why
/// they are not known.
#[verifier::opaque]
pub open spec fn brought_by(store: StoreView, id: PomIdView) -> Result<
    Seq<DependencyView>,
    ResolveErrorView,
> {
    match effective_dependencies(store, id, Set::empty()) {
        Ok(list) => Ok(runtime_dependencies(list)),
        Err(e) => Err(e),
    }
}

/// The dependencies that `d` brings along, or why they are not known.
pub open spec fn transitive(store: StoreView, d: DependencyView) -> Result<
    Seq<DependencyView>,
    ResolveErrorView,
> {
    brought_by(store, id_of(d))
}

/// The dependencies that `d` brings along; none where they are not known.
pub open spec fn emits(store: StoreView, d: DependencyView) -> Seq<DependencyView> {
    match transitive(store, d) {
        Ok(list) => list,
        Err(_) => Seq::empty(),
    }
}

/// Whether the store lacks a description that is needed to know what `d`
/// brings along.
pub open spec fn lacks(store: StoreView, d: DependencyView) -> bool {
    match transitive(store, d) {
        Err(ResolveErrorView::Missing(_)) => true,
        _ => false,
    }
}

/// Whether `d` is outside the `test` scope.
pub open spec fn is_root(d: DependencyView) -> bool {
    d.scope != Some("test"@)
}

/// Those of `deps` that are outside the `test` scope.
pub open spec fn without_tests(deps: Seq<DependencyView>) -> Seq<DependencyView>
    decreases deps.len(),
{
    if deps.len() == 0 {
        Seq::empty()
    } else if is_root(deps.last()) {
        without_tests(deps.drop_last()).push(deps.last())
    } else {
        without_tests(deps.drop_last())
    }
}

/// `path` starts at one of `roots`, and each of its dependencies brings the
/// next one along.
pub open spec fn is_chain(store: StoreView, roots: Seq<DependencyView>, path: Seq<DependencyView>) -> bool {
    &&& path.len() > 0
    &&& roots.contains(path[0])
    &&& forall|i: int|
        0 <= i < path.len() - 1 ==> emits(store, #[trigger] path[i]).contains(path[i + 1])
}

/// Whether `d` is one of `roots` or is brought along, directly or through
/// others, by one of them.
#[verifier::opaque]
pub open spec fn reachable(store: StoreView, roots: Seq<DependencyView>, d: DependencyView) -> bool {
    exists|path: Seq<DependencyView>| is_chain(store, roots, path) && path.last() == d
}

/// A root is reachable.
pub proof fn lemma_root_reachable(store: StoreView, roots: Seq<DependencyView>, k: int)
    requires
        0 <= k < roots.len(),
    ensures
        reachable(store, roots, roots[k]),
{
    reveal(reachable);
    let path = seq![roots[k]];
    assert(roots.contains(path[0]));
    assert(is_chain(store, roots, path) && path.last() == roots[k]);
}

/// What a reachable dependency brings along is reachable.
pub proof fn lemma_step_reachable(
    store: StoreView,
    roots: Seq<DependencyView>,
    d: DependencyView,
    e: DependencyView,
)
    requires
        reachable(store, roots, d),
        emits(store, d).contains(e),
    ensures
        reachable(store, roots, e),
{
    reveal(reachable);
    let path = choose|path: Seq<DependencyView>| is_chain(store, roots, path) && path.last() == d;
    let longer = path.push(e);
    assert(longer[0] == path[0]);
    assert forall|i: int| 0 <= i < longer.len() - 1 implies emits(
        store,
        #[trigger] longer[i],
    ).contains(longer[i + 1]) by {
        if i < path.len() - 1 {
            assert(longer[i] == path[i]);
            assert(longer[i + 1] == path[i + 1]);
        } else {
            assert(longer[i] == d);
            assert(longer[i + 1] == e);
        }
    }
    assert(is_chain(store, roots, longer) && longer.last() == e);
}

/// `list` holds the roots and what each of its own brings along.
pub open spec fn closed(store: StoreView, roots: Seq<DependencyView>, list: Seq<DependencyView>) -> bool {
    &&& forall|k: int| 0 <= k < roots.len() ==> list.contains(#[trigger] roots[k])
    &&& forall|i: int, k: int|
        0 <= i < list.len() && 0 <= k < emits(store, list[i]).len() ==> list.contains(
            #[trigger] emits(store, list[i])[k],
        )
}

/// A list that is closed holds the end of every chain.
pub proof fn lemma_closed_holds_chain(
    store: StoreView,
    roots: Seq<DependencyView>,
    list: Seq<DependencyView>,
    path: Seq<DependencyView>,
)
    requires
        closed(store, roots, list),
        is_chain(store, roots, path),
    ensures
        list.contains(path.last()),
    decreases path.len(),
{
    if path.len() == 1 {
        let k = choose|k: int| 0 <= k < roots.len() && roots[k] == path[0];
        assert(list.contains(roots[k]));
    } else {
        let shorter = path.drop_last();
        assert(shorter[0] == path[0]);
        assert forall|i: int| 0 <= i < shorter.len() - 1 implies emits(
            store,
            #[trigger] shorter[i],
        ).contains(shorter[i + 1]) by {
            assert(shorter[i] == path[i]);
            assert(shorter[i + 1] == path[i + 1]);
        }
        lemma_closed_holds_chain(store, roots, list, shorter);
        let prev = path[path.len() - 2];
        assert(shorter.last() == prev);
        assert(emits(store, prev).contains(path[path.len() - 2 + 1]));
        let i = choose|i: int| 0 <= i < list.len() && list[i] == prev;
        let k = choose|k: int|
            0 <= k < emits(store, prev).len() && emits(store, prev)[k] == path.last();
        assert(list.contains(emits(store, list[i])[k]));
    }
}

/// A list that is closed holds every reachable dependency.
pub proof fn lemma_closed_holds_reachable(
    store: StoreView,
    roots: Seq<DependencyView>,
    list: Seq<DependencyView>,
    d: DependencyView,
)
    requires
        closed(store, roots, list),
        reachable(store, roots, d),
    ensures
        list.contains(d),
{
    reveal(reachable);
    let path = choose|path: Seq<DependencyView>| is_chain(store, roots, path) && path.last() == d;
    lemma_closed_holds_chain(store, roots, list, path);
}

/// What the first `n` descriptions of the store bring along, one list after
/// the other.
pub open spec fn all_brought(store: StoreView, n: nat) -> Seq<DependencyView>
    decreases n,
{
    if n == 0 {
        Seq::empty()
    } else {
        all_brought(store, (n - 1) as nat) + match brought_by(store, store[n - 1].0) {
            Ok(list) => list,
            Err(_) => Seq::empty(),
        }
    }
}

/// Every dependency that can ever be met: the roots and what the
/// descriptions of the store bring along.
#[verifier::opaque]
pub open spec fn universe(store: StoreView, roots: Seq<DependencyView>) -> Set<DependencyView> {
    (roots + all_brought(store, store.len())).to_set()
}

/// What one of the first `n` descriptions brings along is among what they all
/// bring along.
pub proof fn lemma_all_brought_holds(store: StoreView, n: nat, k: int, e: DependencyView)
    requires
        0 <= k < n <= store.len(),
        brought_by(store, store[k].0) is Ok,
        brought_by(store, store[k].0)->Ok_0.contains(e),
    ensures
        all_brought(store, n).contains(e),
    decreases n,
{
    let head = all_brought(store, (n - 1) as nat);
    let tail = match brought_by(store, store[n - 1].0) {
        Ok(list) => list,
        Err(_) => Seq::empty(),
    };
    if k == n - 1 {
        let j = choose|j: int| 0 <= j < tail.len() && tail[j] == e;
        assert((head + tail)[head.len() + j] == e);
    } else {
        lemma_all_brought_holds(store, (n - 1) as nat, k, e);
        let j = choose|j: int| 0 <= j < head.len() && head[j] == e;
        assert((head + tail)[j] == e);
    }
}

/// What a dependency brings along is in the universe.
pub proof fn lemma_emitted_in_universe(
    store: StoreView,
    roots: Seq<DependencyView>,
    d: DependencyView,
    e: DependencyView,
)
    requires
        emits(store, d).contains(e),
    ensures
        universe(store, roots).contains(e),
{
    reveal(brought_by);
    reveal(universe);
    let id = id_of(d);
    lemma_document_found(store, id);
    let k = document_index(store, id) as int;
    assert(k < store.len());
    lemma_all_brought_holds(store, store.len(), k, e);
    let all = all_brought(store, store.len());
    let j = choose|j: int| 0 <= j < all.len() && all[j] == e;
    assert((roots + all)[roots.len() + j] == e);
}

/// A root is in the universe.
pub proof fn lemma_root_in_universe(store: StoreView, roots: Seq<DependencyView>, k: int)
    requires
        0 <= k < roots.len(),
    ensures
        universe(store, roots).contains(roots[k]),
{
    reveal(universe);
    assert((roots + all_brought(store, store.len()))[k] == roots[k]);
}

/// The universe is finite.
pub proof fn lemma_universe_finite(store: StoreView, roots: Seq<DependencyView>)
    ensures
        universe(store, roots).finite(),
{
    reveal(universe);
    vstd::seq_lib::seq_to_set_is_finite(roots + all_brought(store, store.len()));
}

/// A description that is reported as missing for a dependency is one that
/// the store lacks.
pub proof fn lemma_lacking_is_absent(store: StoreView, d: DependencyView, id: PomIdView)
    requires
        transitive(store, d) == Err::<Seq<DependencyView>, ResolveErrorView>(
            ResolveErrorView::Missing(id),
        ),
    ensures
        document_index(store, id) >= store.len(),
{
    reveal(brought_by);
    lemma_resolve_sound(store, id_of(d), Set::empty());
}

/// Taking one more out of a finite set leaves fewer.
pub proof fn lemma_fewer_left(
    all: Set<DependencyView>,
    done: Seq<DependencyView>,
    d: DependencyView,
)
    requires
        all.finite(),
        all.contains(d),
        !done.contains(d),
    ensures
        all.difference(done.push(d).to_set()).len() < all.difference(done.to_set()).len(),
{
    assert(all.difference(done.push(d).to_set()) =~= all.difference(done.to_set()).remove(d)) by {
        assert forall|x: DependencyView| done.push(d).contains(x) <==> (done.contains(x) || x
            == d) by {
            if done.push(d).contains(x) {
                let j = choose|j: int| 0 <= j < done.push(d).len() && done.push(d)[j] == x;
                if j < done.len() {
                    assert(done[j] == x);
                }
            }
            if done.contains(x) {
                let j = choose|j: int| 0 <= j < done.len() && done[j] == x;
                assert(done.push(d)[j] == x);
            }
            if x == d {
                assert(done.push(d)[done.len() as int] == x);
            }
        }
    }
}

/// What the outcome of `fetch_deps` stands for.
pub open spec fn transitive_view(out: Result<Vec<Dependency>, ResolveError>) -> Result<
    Seq<DependencyView>,
    ResolveErrorView,
> {
    match out {
        Ok(list) => Ok(list.deep_view()),
        Err(e) => Err(e.deep_view()),
    }
}

/// Whether `e` is needed to compile or to run.
pub fn is_runtime_dependency(e: &EffectiveDependency) -> (yes: bool)
    ensures
        yes == is_runtime(e.deep_view()),
{
    match &e.scope {
        Some(s) => contains(s.as_str(), "compile") || contains(s.as_str(), "runtime"),
        None => false,
    }
}

/// The dependencies that `dep` brings along: the effective dependencies of
/// its package description that are needed to compile or to run.
pub fn fetch_deps(store: &PomStore, dep: &Dependency) -> (out: Result<
    Vec<Dependency>,
    ResolveError,
>)
    ensures
        transitive_view(out) == transitive(store.deep_view(), dep.deep_view()),
{
    reveal(brought_by);
    let root_pom_id = PomId {
        group_id: dep.groupId.clone(),
        artifact_id: dep.artifactId.clone(),
        version: dep.version.clone(),
    };
    assert(root_pom_id.deep_view() =~= id_of(dep.deep_view()));
    let mut visited = PomIdSet::new();
    match get_effective_dependencies(store, root_pom_id, &mut visited) {
        Err(e) => Err(e),
        Ok(found) => {
            let mut deps: Vec<Dependency> = Vec::new();
            let mut i: usize = 0;
            assert(found.deep_view().take(0) =~= Seq::<EffectiveDependencyView>::empty());
            assert(deps.deep_view() =~= Seq::<DependencyView>::empty());
            while i < found.len()
                invariant
                    i <= found.len(),
                    deps.deep_view() == runtime_dependencies(found.deep_view().take(i as int)),
                decreases found.len() - i,
            {
                let ghost before = deps.deep_view();
                proof {
                    let next = found.deep_view().take(i + 1);
                    assert(next.drop_last() =~= found.deep_view().take(i as int));
                    assert(next.last() == found@[i as int].deep_view());
                }
                if is_runtime_dependency(&found[i]) {
                    let e = &found[i];
                    let d = Dependency {
                        groupId: e.group_id.clone(),
                        artifactId: e.artifact_id.clone(),
                        version: e.version.clone(),
                        scope: crate::pom::clone_text(&e.scope),
                    };
                    assert(d.deep_view() =~= as_dependency(e.deep_view()));
                    deps.push(d);
                    assert(deps.deep_view() =~= before.push(as_dependency(e.deep_view())));
                }
                i += 1;
            }
            assert(found.deep_view().take(found.len() as int) =~= found.deep_view());
            Ok(deps)
        },
    }
}

/// Those of `deps` that are outside the `test` scope.
pub fn drop_tests(deps: &Vec<Dependency>) -> (out: Vec<Dependency>)
    ensures
        out.deep_view() == without_tests(deps.deep_view()),
{
    let mut out: Vec<Dependency> = Vec::new();
    let mut i: usize = 0;
    assert(deps.deep_view().take(0) =~= Seq::<DependencyView>::empty());
    assert(out.deep_view() =~= Seq::<DependencyView>::empty());
    while i < deps.len()
        invariant
            i <= deps.len(),
            out.deep_view() == without_tests(deps.deep_view().take(i as int)),
        decreases deps.len() - i,
    {
        let ghost before = out.deep_view();
        proof {
            let next = deps.deep_view().take(i + 1);
            assert(next.drop_last() =~= deps.deep_view().take(i as int));
            assert(next.last() == deps@[i as int].deep_view());
        }
        if !crate::pom::text_is(&deps[i].scope, "test") {
            out.push(deps[i].clone());
            assert(out.deep_view() =~= before.push(deps@[i as int].deep_view()));
        }
        i += 1;
    }
    assert(deps.deep_view().take(deps.len() as int) =~= deps.deep_view());
    out
}

/// Whether `x` waits in `queue` at `head` or behind it.
pub open spec fn pending(queue: Seq<DependencyView>, head: int, x: DependencyView) -> bool {
    exists|j: int| head <= j < queue.len() && queue[j] == x
}

/// Whether `x` is done or waits in the queue.
pub open spec fn covered(
    done: Seq<DependencyView>,
    queue: Seq<DependencyView>,
    head: int,
    x: DependencyView,
) -> bool {
    done.contains(x) || pending(queue, head, x)
}

/// Puts behind `queue` those of `found` that are not among `done`.
fn enqueue_new(queue: &mut Vec<Dependency>, done: &Vec<Dependency>, found: &Vec<Dependency>)
    ensures
        final(queue).deep_view().len() >= old(queue).deep_view().len(),
        final(queue).deep_view().take(old(queue).deep_view().len() as int) == old(
            queue,
        ).deep_view(),
        forall|j: int|
            old(queue).deep_view().len() <= j < final(queue).deep_view().len()
                ==> found.deep_view().contains(#[trigger] final(queue).deep_view()[j]),
        forall|k: int|
            0 <= k < found.deep_view().len() ==> covered(
                done.deep_view(),
                final(queue).deep_view(),
                old(queue).deep_view().len() as int,
                #[trigger] found.deep_view()[k],
            ),
{
    let ghost start = queue.deep_view();
    let mut i: usize = 0;
    assert(queue.deep_view().take(start.len() as int) =~= start);
    while i < found.len()
        invariant
            i <= found.len(),
            queue.deep_view().len() >= start.len(),
            queue.deep_view().take(start.len() as int) == start,
            forall|j: int|
                start.len() <= j < queue.deep_view().len() ==> found.deep_view().contains(
                    #[trigger] queue.deep_view()[j],
                ),
            forall|k: int|
                0 <= k < i ==> covered(
                    done.deep_view(),
                    queue.deep_view(),
                    start.len() as int,
                    #[trigger] found.deep_view()[k],
                ),
        decreases found.len() - i,
    {
        let ghost before = queue.deep_view();
        assert(found.deep_view()[i as int] == found@[i as int].deep_view());
        if !contains_dependency(done, &found[i]) {
            queue.push(found[i].clone());
            proof {
                let after = queue.deep_view();
                assert(after =~= before.push(found.deep_view()[i as int]));
                assert(after.take(start.len() as int) =~= start);
                assert forall|j: int| start.len() <= j < after.len() implies found.deep_view().contains(
                    #[trigger] after[j],
                ) by {
                    if j < before.len() {
                        assert(after[j] == before[j]);
                    }
                }
                assert forall|k: int| 0 <= k < i + 1 implies covered(
                    done.deep_view(),
                    after,
                    start.len() as int,
                    #[trigger] found.deep_view()[k],
                ) by {
                    if k < i {
                        let x = found.deep_view()[k];
                        assert(covered(done.deep_view(), before, start.len() as int, x));
                        if !done.deep_view().contains(x) {
                            let j = choose|j: int| start.len() <= j < before.len() && before[j] == x;
                            assert(after[j] == x);
                        }
                    } else {
                        assert(after[before.len() as int] == found.deep_view()[k]);
                    }
                }
            }
        }
        i += 1;
    }
}

/// The dependencies of a project with all that they bring along.
///
/// Starting from the dependencies outside the `test` scope, each dependency
/// is followed to those that its package description brings along, until
/// nothing new turns up.  The result names a description that the store lacks,
/// where one is needed; else it holds each dependency met exactly once.
#[verifier::rlimit(50)]
pub fn resolve_all_deps(store: &PomStore, initial_deps: Vec<Dependency>) -> (out: Result<
    Vec<Dependency>,
    PomId,
>)
    ensures
        match out {
            Ok(list) => {
                &&& list.deep_view().no_duplicates()
                &&& forall|d: DependencyView|
                    list.deep_view().contains(d) <==> reachable(
                        store.deep_view(),
                        without_tests(initial_deps.deep_view()),
                        d,
                    )
                &&& forall|i: int|
                    0 <= i < list.len() ==> !lacks(
                        store.deep_view(),
                        #[trigger] list.deep_view()[i],
                    )
            },
            Err(id) => document_index(store.deep_view(), id.deep_view()) >= store.deep_view().len()
                && exists|d: DependencyView|
                reachable(store.deep_view(), without_tests(initial_deps.deep_view()), d)
                    && transitive(store.deep_view(), d) == Err::<
                    Seq<DependencyView>,
                    ResolveErrorView,
                >(ResolveErrorView::Missing(id.deep_view())),
        },
{
    let ghost sv = store.deep_view();
    let ghost roots = without_tests(initial_deps.deep_view());
    let ghost all = universe(sv, roots);
    let mut queue = drop_tests(&initial_deps);
    let mut done: Vec<Dependency> = Vec::new();
    let mut head: usize = 0;
    proof {
        lemma_universe_finite(sv, roots);
        assert forall|j: int| 0 <= j < roots.len() implies reachable(sv, roots, #[trigger] roots[j])
            && all.contains(roots[j]) by {
            lemma_root_reachable(sv, roots, j);
            lemma_root_in_universe(sv, roots, j);
        }
        assert forall|k: int| 0 <= k < roots.len() implies covered(
            done.deep_view(),
            queue.deep_view(),
            0,
            #[trigger] roots[k],
        ) by {
            assert(queue.deep_view()[k] == roots[k]);
        }
    }
    while head < queue.len()
        invariant
            head <= queue.len(),
            sv == store.deep_view(),
            roots == without_tests(initial_deps.deep_view()),
            all == universe(sv, roots),
            all.finite(),
            done.deep_view().no_duplicates(),
            forall|j: int|
                0 <= j < queue.len() ==> reachable(sv, roots, #[trigger] queue.deep_view()[j])
                    && all.contains(queue.deep_view()[j]),
            forall|i: int|
                0 <= i < done.len() ==> reachable(sv, roots, #[trigger] done.deep_view()[i])
                    && !lacks(sv, done.deep_view()[i]),
            forall|k: int|
                0 <= k < roots.len() ==> covered(
                    done.deep_view(),
                    queue.deep_view(),
                    head as int,
                    #[trigger] roots[k],
                ),
            forall|i: int, k: int|
                0 <= i < done.len() && 0 <= k < emits(sv, done.deep_view()[i]).len() ==> covered(
                    done.deep_view(),
                    queue.deep_view(),
                    head as int,
                    #[trigger] emits(sv, done.deep_view()[i])[k],
                ),
        decreases all.difference(done.deep_view().to_set()).len(), queue.len() - head,
    {
        let ghost done0 = done.deep_view();
        let ghost queue0 = queue.deep_view();
        let ghost h0 = head as int;
        let ghost h1 = h0 + 1;
        let dep = queue[head].clone();
        let ghost d = dep.deep_view();
        assert(queue0[h0] == d);
        head += 1;
        if contains_dependency(&done, &dep) {
            proof {
                assert forall|x: DependencyView| covered(done0, queue0, h0, x) implies covered(
                    done0,
                    queue0,
                    h1,
                    x,
                ) by {
                    if !done0.contains(x) {
                        let j = choose|j: int| h0 <= j < queue0.len() && queue0[j] == x;
                        assert(j != h0);
                    }
                }
            }
        } else {
            done.push(dep.clone());
            let ghost done1 = done.deep_view();
            proof {
                assert(done1 =~= done0.push(d));
                lemma_fewer_left(all, done0, d);
                assert forall|x: DependencyView| done0.contains(x) implies done1.contains(x) by {
                    let j = choose|j: int| 0 <= j < done0.len() && done0[j] == x;
                    assert(done1[j] == x);
                }
                assert(done1[done0.len() as int] == d);
                assert forall|x: DependencyView| covered(done0, queue0, h0, x) implies covered(
                    done1,
                    queue0,
                    h1,
                    x,
                ) by {
                    if !done0.contains(x) {
                        let j = choose|j: int| h0 <= j < queue0.len() && queue0[j] == x;
                        if j == h0 {
                            assert(done1.contains(x));
                        }
                    }
                }
            }
            match fetch_deps(store, &dep) {
                Err(ResolveError::Missing(id)) => {
                    proof {
                        lemma_lacking_is_absent(sv, d, id.deep_view());
                        assert(reachable(sv, roots, d));
                    }
                    return Err(id);
                },
                Err(ResolveError::Invalid(_)) => {
                    proof {
                        assert(emits(sv, d).len() == 0);
                        assert forall|i: int, k: int|
                            0 <= i < done1.len() && 0 <= k < emits(sv, done1[i]).len() implies covered(
                            done1,
                            queue0,
                            h1,
                            #[trigger] emits(sv, done1[i])[k],
                        ) by {
                            assert(done1[i] == done0[i]);
                            assert(covered(done0, queue0, h0, emits(sv, done0[i])[k]));
                        }
                        assert forall|i: int| 0 <= i < done1.len() implies reachable(
                            sv,
                            roots,
                            #[trigger] done1[i],
                        ) && !lacks(sv, done1[i]) by {
                            if i < done0.len() {
                                assert(done1[i] == done0[i]);
                            }
                        }
                    }
                },
                Ok(found) => {
                    enqueue_new(&mut queue, &done, &found);
                    proof {
                        let queue1 = queue.deep_view();
                        let fv = found.deep_view();
                        assert(fv == emits(sv, d));
                        assert forall|j: int| 0 <= j < queue1.len() implies reachable(
                            sv,
                            roots,
                            #[trigger] queue1[j],
                        ) && all.contains(queue1[j]) by {
                            if j < queue0.len() {
                                assert(queue1.take(queue0.len() as int)[j] == queue1[j]);
                                assert(queue1[j] == queue0[j]);
                            } else {
                                assert(fv.contains(queue1[j]));
                                lemma_step_reachable(sv, roots, d, queue1[j]);
                                lemma_emitted_in_universe(sv, roots, d, queue1[j]);
                            }
                        }
                        assert forall|x: DependencyView| covered(done1, queue0, h1, x) implies covered(
                            done1,
                            queue1,
                            h1,
                            x,
                        ) by {
                            if !done1.contains(x) {
                                let j = choose|j: int| h1 <= j < queue0.len() && queue0[j] == x;
                                assert(queue1.take(queue0.len() as int)[j] == queue1[j]);
                            }
                        }
                        assert forall|x: DependencyView| covered(
                            done1,
                            queue1,
                            queue0.len() as int,
                            x,
                        ) implies covered(done1, queue1, h1, x) by {
                            if !done1.contains(x) {
                                let j = choose|j: int|
                                    queue0.len() <= j < queue1.len() && queue1[j] == x;
                                assert(h1 <= j);
                            }
                        }
                        assert forall|i: int, k: int|
                            0 <= i < done1.len() && 0 <= k < emits(sv, done1[i]).len() implies covered(
                            done1,
                            queue1,
                            h1,
                            #[trigger] emits(sv, done1[i])[k],
                        ) by {
                            if i < done0.len() {
                                assert(done1[i] == done0[i]);
                                assert(covered(done0, queue0, h0, emits(sv, done0[i])[k]));
                            } else {
                                assert(done1[i] == d);
                                assert(covered(done1, queue1, queue0.len() as int, fv[k]));
                            }
                        }
                        assert forall|k: int| 0 <= k < roots.len() implies covered(
                            done1,
                            queue1,
                            h1,
                            #[trigger] roots[k],
                        ) by {
                            assert(covered(done0, queue0, h0, roots[k]));
                        }
                        assert forall|i: int| 0 <= i < done1.len() implies reachable(
                            sv,
                            roots,
                            #[trigger] done1[i],
                        ) && !lacks(sv, done1[i]) by {
                            if i < done0.len() {
                                assert(done1[i] == done0[i]);
                            }
                        }
                    }
                },
            }
        }
    }
    proof {
        let list = done.deep_view();
        assert forall|x: DependencyView| covered(list, queue.deep_view(), head as int, x) implies list.contains(
            x,
        ) by {}
        assert(closed(sv, roots, list)) by {
            assert forall|k: int| 0 <= k < roots.len() implies list.contains(#[trigger] roots[k]) by {
                assert(covered(list, queue.deep_view(), head as int, roots[k]));
            }
            assert forall|i: int, k: int|
                0 <= i < list.len() && 0 <= k < emits(sv, list[i]).len() implies list.contains(
                #[trigger] emits(sv, list[i])[k],
            ) by {
                assert(covered(list, queue.deep_view(), head as int, emits(sv, list[i])[k]));
            }
        }
        assert forall|x: DependencyView| list.contains(x) <==> reachable(sv, roots, x) by {
            if reachable(sv, roots, x) {
                lemma_closed_holds_reachable(sv, roots, list, x);
            }
            if list.contains(x) {
                let i = choose|i: int| 0 <= i < list.len() && list[i] == x;
                assert(reachable(sv, roots, list[i]));
            }
        }
    }
    Ok(done)
}

/// `all` holds, each once, the dependencies that are reachable from the
/// dependencies `deps` outside the `test` scope.
pub open spec fn is_closure(store: StoreView, deps: Seq<DependencyView>, all: Seq<DependencyView>) -> bool {
    &&& all.no_duplicates()
    &&& forall|d: DependencyView| all.contains(d) <==> reachable(store, without_tests(deps), d)
}

/// Whether `lock` was made for the dependencies `deps`.
pub open spec fn lock_is_current(lock: Option<LockView>, deps: Seq<DependencyView>) -> bool {
    match lock {
        Some(l) => l.input == deps,
        None => false,
    }
}

/// What an installation does next.
#[derive(Debug, PartialEq, Eq)]
pub enum InstallStep {
    /// The lock is current: download what it names.
    UseLock(Vec<Dependency>),
    /// Fetch this package description, put it into the store, and ask again.
    Fetch(PomId),
    /// Download what the lock names, and write the lock.
    Install(Lock),
}

/// The next step of an installation.
///
/// Where the lock was made for the project's dependencies as they stand,
/// nothing is resolved and the locked dependencies are used.  Else the
/// dependencies are resolved against the store: one description that the
/// store lacks is asked for, or, when no reachable dependency lacks one, the
/// newest version of each artifact met is locked.
pub fn execute_install(store: &PomStore, grind: &Grind, lock: Option<Lock>) -> (step: InstallStep)
    ensures
        match step {
            InstallStep::UseLock(list) => lock_is_current(
                lock.deep_view(),
                grind.deep_view().dependencies,
            ) && list.deep_view() == lock.deep_view()->Some_0.locked,
            InstallStep::Fetch(id) => !lock_is_current(
                lock.deep_view(),
                grind.deep_view().dependencies,
            ) && document_index(store.deep_view(), id.deep_view()) >= store.deep_view().len()
                && exists|d: DependencyView|
                reachable(
                    store.deep_view(),
                    without_tests(grind.deep_view().dependencies),
                    d,
                ) && transitive(store.deep_view(), d) == Err::<
                    Seq<DependencyView>,
                    ResolveErrorView,
                >(ResolveErrorView::Missing(id.deep_view())),
            InstallStep::Install(made) => !lock_is_current(
                lock.deep_view(),
                grind.deep_view().dependencies,
            ) && made.deep_view().input == grind.deep_view().dependencies && (forall|
                d: DependencyView,
            |
                reachable(
                    store.deep_view(),
                    without_tests(grind.deep_view().dependencies),
                    d,
                ) ==> !lacks(store.deep_view(), d)) && exists|all: Seq<DependencyView>|
                is_closure(store.deep_view(), grind.deep_view().dependencies, all)
                    && made.deep_view().locked == newest(all),
        },
{
    match lock {
        Some(l) => {
            if l.is_current(&grind.project.dependencies) {
                return InstallStep::UseLock(l.lockedDeps);
            }
        },
        None => {},
    }
    match resolve_all_deps(store, clone_dependency_list(&grind.project.dependencies)) {
        Err(id) => InstallStep::Fetch(id),
        Ok(all) => {
            let ghost closure = all.deep_view();
            proof {
                assert forall|d: DependencyView|
                    reachable(
                        store.deep_view(),
                        without_tests(grind.deep_view().dependencies),
                        d,
                    ) implies !lacks(store.deep_view(), d) by {
                    assert(closure.contains(d));
                    let i = choose|i: int| 0 <= i < closure.len() && closure[i] == d;
                    assert(!lacks(store.deep_view(), closure[i]));
                }
            }
            let resolved = fix_collisions(all);
            let made = lock_file(&grind.project.dependencies, &resolved);
            assert(is_closure(store.deep_view(), grind.deep_view().dependencies, closure));
            InstallStep::Install(made)
        },
    }
}

} // verus!
