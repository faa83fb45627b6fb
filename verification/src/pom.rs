//! Package descriptions and their effective dependencies.
//!
//! A package description names its parent, declares properties, manages the
//! versions of other packages and lists its own dependencies.  Resolving a
//! description walks up through its parents, merges their properties and
//! managed versions downwards, and imports the managed versions of other
//! descriptions sideways.  The descriptions themselves come from a store that
//! the caller fills: a description that the store lacks is reported back by
//! its id, so that the caller can fetch it and ask again.

use crate::table::{
    find_key, has_key, key_index, lemma_first_binding_stands, lemma_key_index,
    lemma_key_index_found,
    lemma_put_all_absent_keeps, lemma_put_all_absent_keys, lookup, put, put_all, put_all_absent,
    put_if_absent,
};
use crate::text::{
    contains, contains_sub, is_match_at, lemma_replace_absent, lemma_replace_whole, replace,
    replace_all, str_eq,
};
use vstd::prelude::*;
use vstd::string::StringExecFns;

verus! {

/// The identity of a package description.
#[derive(Debug, PartialEq, Eq, Hash)]
pub struct PomId {
    pub group_id: String,
    pub artifact_id: String,
    pub version: String,
}

/// What a `PomId` stands for.
#[verifier::ext_equal]
pub struct PomIdView {
    pub group_id: Seq<char>,
    pub artifact_id: Seq<char>,
    pub version: Seq<char>,
}

impl DeepView for PomId {
    type V = PomIdView;

    open spec fn deep_view(&self) -> PomIdView {
        PomIdView { group_id: self.group_id@, artifact_id: self.artifact_id@, version: self.version@ }
    }
}

impl Clone for PomId {
    fn clone(&self) -> (out: Self)
        ensures
            out.deep_view() == self.deep_view(),
    {
        PomId {
            group_id: self.group_id.clone(),
            artifact_id: self.artifact_id.clone(),
            version: self.version.clone(),
        }
    }
}

/// The text `group:artifact:version`.
pub open spec fn id_text(id: PomIdView) -> Seq<char> {
    id.group_id + ":"@ + id.artifact_id + ":"@ + id.version
}

impl PomId {
    /// Whether `self` and `other` name the same description.
    pub fn same_as(&self, other: &PomId) -> (same: bool)
        ensures
            same == (self.deep_view() == other.deep_view()),
    {
        self.group_id == other.group_id && self.artifact_id == other.artifact_id && self.version
            == other.version
    }

    /// The id written as `group:artifact:version`.
    pub fn to_text(&self) -> (out: String)
        ensures
            out@ == id_text(self.deep_view()),
    {
        let mut out = self.group_id.clone();
        out.append(":");
        out.append(self.artifact_id.as_str());
        out.append(":");
        out.append(self.version.as_str());
        out
    }
}

/// A dependency with its version settled.
#[derive(Debug, PartialEq, Eq)]
pub struct EffectiveDependency {
    pub group_id: String,
    pub artifact_id: String,
    pub version: String,
    pub scope: Option<String>,
}

/// What an `EffectiveDependency` stands for.
#[verifier::ext_equal]
pub struct EffectiveDependencyView {
    pub group_id: Seq<char>,
    pub artifact_id: Seq<char>,
    pub version: Seq<char>,
    pub scope: Option<Seq<char>>,
}

impl DeepView for EffectiveDependency {
    type V = EffectiveDependencyView;

    open spec fn deep_view(&self) -> EffectiveDependencyView {
        EffectiveDependencyView {
            group_id: self.group_id@,
            artifact_id: self.artifact_id@,
            version: self.version@,
            scope: self.scope.deep_view(),
        }
    }
}

impl Clone for EffectiveDependency {
    fn clone(&self) -> (out: Self)
        ensures
            out.deep_view() == self.deep_view(),
    {
        EffectiveDependency {
            group_id: self.group_id.clone(),
            artifact_id: self.artifact_id.clone(),
            version: self.version.clone(),
            scope: clone_text(&self.scope),
        }
    }
}

/// A copy of an optional string.
pub fn clone_text(text: &Option<String>) -> (out: Option<String>)
    ensures
        out.deep_view() == text.deep_view(),
{
    match text {
        Some(s) => Some(s.clone()),
        None => None,
    }
}

/// A dependency as a package description declares it.
#[derive(Debug, PartialEq, Eq)]
pub struct PomDependency {
    pub group_id: String,
    pub artifact_id: String,
    pub version: Option<String>,
    pub kind: Option<String>,
    pub scope: Option<String>,
    pub optional: Option<String>,
}

/// What a `PomDependency` stands for.
#[verifier::ext_equal]
pub struct PomDependencyView {
    pub group_id: Seq<char>,
    pub artifact_id: Seq<char>,
    pub version: Option<Seq<char>>,
    pub kind: Option<Seq<char>>,
    pub scope: Option<Seq<char>>,
    pub optional: Option<Seq<char>>,
}

impl DeepView for PomDependency {
    type V = PomDependencyView;

    open spec fn deep_view(&self) -> PomDependencyView {
        PomDependencyView {
            group_id: self.group_id@,
            artifact_id: self.artifact_id@,
            version: self.version.deep_view(),
            kind: self.kind.deep_view(),
            scope: self.scope.deep_view(),
            optional: self.optional.deep_view(),
        }
    }
}

impl Clone for PomDependency {
    fn clone(&self) -> (out: Self)
        ensures
            out.deep_view() == self.deep_view(),
    {
        PomDependency {
            group_id: self.group_id.clone(),
            artifact_id: self.artifact_id.clone(),
            version: clone_text(&self.version),
            kind: clone_text(&self.kind),
            scope: clone_text(&self.scope),
            optional: clone_text(&self.optional),
        }
    }
}

/// The parent that a package description names.
#[derive(Debug, PartialEq, Eq)]
pub struct Parent {
    pub group_id: String,
    pub artifact_id: String,
    pub version: String,
}

impl DeepView for Parent {
    type V = PomIdView;

    open spec fn deep_view(&self) -> PomIdView {
        PomIdView { group_id: self.group_id@, artifact_id: self.artifact_id@, version: self.version@ }
    }
}

impl Clone for Parent {
    fn clone(&self) -> (out: Self)
        ensures
            out.deep_view() == self.deep_view(),
    {
        Parent {
            group_id: self.group_id.clone(),
            artifact_id: self.artifact_id.clone(),
            version: self.version.clone(),
        }
    }
}

/// A package description.
#[derive(Debug, PartialEq, Eq)]
pub struct Pom {
    pub group_id: Option<String>,
    pub artifact_id: Option<String>,
    pub version: Option<String>,
    pub parent: Option<Parent>,
    pub properties: Vec<(String, String)>,
    pub dependency_management: Vec<PomDependency>,
    pub dependencies: Vec<PomDependency>,
}

/// What a `Pom` stands for.
#[verifier::ext_equal]
pub struct PomView {
    pub group_id: Option<Seq<char>>,
    pub artifact_id: Option<Seq<char>>,
    pub version: Option<Seq<char>>,
    pub parent: Option<PomIdView>,
    pub properties: Seq<(Seq<char>, Seq<char>)>,
    pub dependency_management: Seq<PomDependencyView>,
    pub dependencies: Seq<PomDependencyView>,
}

impl DeepView for Pom {
    type V = PomView;

    open spec fn deep_view(&self) -> PomView {
        PomView {
            group_id: self.group_id.deep_view(),
            artifact_id: self.artifact_id.deep_view(),
            version: self.version.deep_view(),
            parent: self.parent.deep_view(),
            properties: self.properties.deep_view(),
            dependency_management: self.dependency_management.deep_view(),
            dependencies: self.dependencies.deep_view(),
        }
    }
}

/// A copy of a list of string pairs.
pub fn clone_pairs(pairs: &Vec<(String, String)>) -> (out: Vec<(String, String)>)
    ensures
        out.deep_view() == pairs.deep_view(),
{
    let mut out: Vec<(String, String)> = Vec::new();
    let mut i: usize = 0;
    while i < pairs.len()
        invariant
            i <= pairs.len(),
            out.deep_view() == pairs.deep_view().take(i as int),
        decreases pairs.len() - i,
    {
        let ghost before = out.deep_view();
        out.push((pairs[i].0.clone(), pairs[i].1.clone()));
        assert(out.deep_view() =~= before.push(pairs.deep_view()[i as int]));
        i += 1;
    }
    assert(out.deep_view() =~= pairs.deep_view());
    out
}

/// A copy of a list of declared dependencies.
pub fn clone_dependencies(deps: &Vec<PomDependency>) -> (out: Vec<PomDependency>)
    ensures
        out.deep_view() == deps.deep_view(),
{
    let mut out: Vec<PomDependency> = Vec::new();
    let mut i: usize = 0;
    while i < deps.len()
        invariant
            i <= deps.len(),
            out.deep_view() == deps.deep_view().take(i as int),
        decreases deps.len() - i,
    {
        let ghost before = out.deep_view();
        out.push(deps[i].clone());
        assert(out.deep_view() =~= before.push(deps.deep_view()[i as int]));
        i += 1;
    }
    assert(out.deep_view() =~= deps.deep_view());
    out
}

impl Clone for Pom {
    fn clone(&self) -> (out: Self)
        ensures
            out.deep_view() == self.deep_view(),
    {
        let parent = match &self.parent {
            Some(p) => Some(p.clone()),
            None => None,
        };
        Pom {
            group_id: clone_text(&self.group_id),
            artifact_id: clone_text(&self.artifact_id),
            version: clone_text(&self.version),
            parent,
            properties: clone_pairs(&self.properties),
            dependency_management: clone_dependencies(&self.dependency_management),
            dependencies: clone_dependencies(&self.dependencies),
        }
    }
}

/// What a resolution carries along: the managed versions, keyed by
/// `group:artifact`, and the properties.
#[derive(Debug, PartialEq, Eq)]
pub struct ResolutionContext {
    pub dependency_management: Vec<(String, PomDependency)>,
    pub properties: Vec<(String, String)>,
}

/// What a `ResolutionContext` stands for.
#[verifier::ext_equal]
pub struct ContextView {
    pub dependency_management: Seq<(Seq<char>, PomDependencyView)>,
    pub properties: Seq<(Seq<char>, Seq<char>)>,
}

impl DeepView for ResolutionContext {
    type V = ContextView;

    open spec fn deep_view(&self) -> ContextView {
        ContextView {
            dependency_management: self.dependency_management.deep_view(),
            properties: self.properties.deep_view(),
        }
    }
}

/// The context that manages nothing and has no property.
pub open spec fn empty_context() -> ContextView {
    ContextView { dependency_management: Seq::empty(), properties: Seq::empty() }
}

impl ResolutionContext {
    /// The context that manages nothing and has no property.
    pub fn new() -> (out: Self)
        ensures
            out.deep_view() == empty_context(),
    {
        let out = ResolutionContext { dependency_management: Vec::new(), properties: Vec::new() };
        assert(out.deep_view() =~= empty_context());
        out
    }
}

/// A description as the store holds it: parsed, or the reason why it could not
/// be parsed.
#[derive(Debug, PartialEq, Eq)]
pub enum PomSource {
    Parsed(Pom),
    Invalid(String),
}

/// What a `PomSource` stands for.
pub enum PomSourceView {
    Parsed(PomView),
    Invalid(Seq<char>),
}

impl DeepView for PomSource {
    type V = PomSourceView;

    open spec fn deep_view(&self) -> PomSourceView {
        match self {
            PomSource::Parsed(pom) => PomSourceView::Parsed(pom.deep_view()),
            PomSource::Invalid(reason) => PomSourceView::Invalid(reason@),
        }
    }
}

/// Why a resolution gave no result: the store lacks a description, or a
/// description is unusable.
#[derive(Debug, PartialEq, Eq)]
pub enum ResolveError {
    Missing(PomId),
    Invalid(String),
}

/// What a `ResolveError` stands for.
pub enum ResolveErrorView {
    Missing(PomIdView),
    Invalid(Seq<char>),
}

impl DeepView for ResolveError {
    type V = ResolveErrorView;

    open spec fn deep_view(&self) -> ResolveErrorView {
        match self {
            ResolveError::Missing(id) => ResolveErrorView::Missing(id.deep_view()),
            ResolveError::Invalid(reason) => ResolveErrorView::Invalid(reason@),
        }
    }
}

/// The descriptions fetched so far, by id.
pub type StoreView = Seq<(PomIdView, PomSourceView)>;

/// The position of the first description of `store` with the id `id`, or the
/// length of `store` when it holds none.
pub open spec fn document_index(store: StoreView, id: PomIdView) -> nat
    decreases store.len(),
{
    if store.len() == 0 {
        0
    } else if store[0].0 == id {
        0
    } else {
        1 + document_index(store.skip(1), id)
    }
}

/// The ids of the descriptions that `store` holds.
pub open spec fn document_ids(store: StoreView) -> Set<PomIdView> {
    store.map_values(|d: (PomIdView, PomSourceView)| d.0).to_set()
}

/// How many descriptions of `store` are not in `visited`.
pub open spec fn remaining(store: StoreView, visited: Set<PomIdView>) -> nat {
    document_ids(store).difference(visited).len()
}

/// `document_index` is the position `i` when no description before `i` has
/// the id and the one at `i` has it, or `i` is the end.
pub proof fn lemma_document_index(store: StoreView, id: PomIdView, i: int)
    requires
        0 <= i <= store.len(),
        forall|j: int| 0 <= j < i ==> (#[trigger] store[j]).0 != id,
        i == store.len() || store[i].0 == id,
    ensures
        document_index(store, id) == i,
    decreases i,
{
    if i > 0 {
        assert(store[0].0 != id);
        assert forall|j: int| 0 <= j < i - 1 implies (#[trigger] store.skip(1)[j]).0 != id by {
            assert(store.skip(1)[j] == store[j + 1]);
        }
        lemma_document_index(store.skip(1), id, i - 1);
    }
}

/// A description that `document_index` finds has the id, and the id is one of
/// the store's.
pub proof fn lemma_document_found(store: StoreView, id: PomIdView)
    ensures
        document_index(store, id) <= store.len(),
        document_index(store, id) < store.len() ==> store[document_index(store, id) as int].0 == id
            && document_ids(store).contains(id),
    decreases store.len(),
{
    if store.len() > 0 && store[0].0 != id {
        lemma_document_found(store.skip(1), id);
        let k = document_index(store.skip(1), id) as int;
        if k < store.skip(1).len() {
            assert(store.skip(1)[k] == store[k + 1]);
        }
    }
    let i = document_index(store, id) as int;
    if i < store.len() {
        let ids = store.map_values(|d: (PomIdView, PomSourceView)| d.0);
        assert(ids[i] == id);
    }
}

/// Visiting one more description of the store leaves fewer to visit.
pub proof fn lemma_remaining_insert(store: StoreView, visited: Set<PomIdView>, id: PomIdView)
    requires
        document_index(store, id) < store.len(),
        !visited.contains(id),
    ensures
        remaining(store, visited.insert(id)) < remaining(store, visited),
{
    lemma_document_found(store, id);
    let ids = document_ids(store);
    vstd::seq_lib::seq_to_set_is_finite(store.map_values(|d: (PomIdView, PomSourceView)| d.0));
    assert(ids.difference(visited.insert(id)) =~= ids.difference(visited).remove(id));
}

/// Having visited more leaves no more to visit.
pub proof fn lemma_remaining_monotone(
    store: StoreView,
    fewer: Set<PomIdView>,
    more: Set<PomIdView>,
)
    requires
        fewer.subset_of(more),
    ensures
        remaining(store, more) <= remaining(store, fewer),
{
    let ids = document_ids(store);
    vstd::seq_lib::seq_to_set_is_finite(store.map_values(|d: (PomIdView, PomSourceView)| d.0));
    vstd::set_lib::lemma_len_subset(ids.difference(more), ids.difference(fewer));
}

/// The key under which the version of `dep` is managed: `group:artifact`.
pub open spec fn key_of(dep: PomDependencyView) -> Seq<char> {
    dep.group_id + ":"@ + dep.artifact_id
}

/// The declared dependencies `deps`, each with its key.
pub open spec fn managed_pairs(deps: Seq<PomDependencyView>) -> Seq<
    (Seq<char>, PomDependencyView),
> {
    deps.map_values(|d: PomDependencyView| (key_of(d), d))
}

/// The dependencies that `table` manages, in the table's order.
pub open spec fn table_values(table: Seq<(Seq<char>, PomDependencyView)>) -> Seq<
    PomDependencyView,
> {
    table.map_values(|e: (Seq<char>, PomDependencyView)| e.1)
}

/// Whether `dep` imports the managed versions of another description.
pub open spec fn is_import(dep: PomDependencyView) -> bool {
    dep.scope == Some("import"@) && dep.kind == Some("pom"@)
}

/// The placeholder that stands for the property `key`.
pub open spec fn placeholder(key: Seq<char>) -> Seq<char> {
    "${"@ + key + "}"@
}

/// `value` after the placeholder of each property has been replaced by the
/// property's value, one property after the other in the order of
/// `properties`.
pub open spec fn substitute(value: Seq<char>, properties: Seq<(Seq<char>, Seq<char>)>) -> Seq<
    char,
>
    decreases properties.len(),
{
    if properties.len() == 0 {
        value
    } else {
        replace_all(
            substitute(value, properties.drop_last()),
            placeholder(properties.last().0),
            properties.last().1,
        )
    }
}

/// `pom` with the group and the version of the parent it names, where it
/// declares none of its own.
pub open spec fn inherit(pom: PomView) -> PomView {
    PomView {
        group_id: match pom.group_id {
            Some(g) => Some(g),
            None => match pom.parent {
                Some(p) => Some(p.group_id),
                None => None,
            },
        },
        version: match pom.version {
            Some(v) => Some(v),
            None => match pom.parent {
                Some(p) => Some(p.version),
                None => None,
            },
        },
        ..pom
    }
}

/// `table` with `key` bound to `value`, where there is a value.
pub open spec fn put_some(
    table: Seq<(Seq<char>, Seq<char>)>,
    key: Seq<char>,
    value: Option<Seq<char>>,
) -> Seq<(Seq<char>, Seq<char>)> {
    match value {
        Some(v) => put(table, key, v),
        None => table,
    }
}

/// The properties of a description: those of its parent, then the built-in
/// ones for its own identity and for its parent's, then those it declares.
/// A later one replaces an earlier one of the same name.
pub open spec fn merged_properties(
    inherited: Seq<(Seq<char>, Seq<char>)>,
    pom: PomView,
    parent: Option<PomView>,
) -> Seq<(Seq<char>, Seq<char>)> {
    let p1 = put_some(inherited, "project.groupId"@, pom.group_id);
    let p2 = put_some(p1, "project.artifactId"@, pom.artifact_id);
    let p3 = put_some(p2, "project.version"@, pom.version);
    let p4 = match parent {
        Some(pp) => put_some(
            put_some(p3, "project.parent.groupId"@, pp.group_id),
            "project.parent.version"@,
            pp.version,
        ),
        None => p3,
    };
    put_all(p4, pom.properties)
}

/// The managed versions of a description before any import: those it declares
/// itself, the first one for a key standing, then those of its parent for the
/// keys it does not declare.
pub open spec fn merged_management(
    declared: Seq<PomDependencyView>,
    inherited: Seq<(Seq<char>, PomDependencyView)>,
) -> Seq<(Seq<char>, PomDependencyView)> {
    put_all_absent(put_all_absent(Seq::empty(), managed_pairs(declared)), inherited)
}

/// The context of a description before any import.
pub open spec fn first_context(pom: PomView, parent: Option<PomView>, inherited: ContextView) -> ContextView {
    ContextView {
        dependency_management: merged_management(
            pom.dependency_management,
            inherited.dependency_management,
        ),
        properties: merged_properties(inherited.properties, inherit(pom), parent),
    }
}

/// What is reported of an import that names no version.
pub open spec fn unversioned_import(dep: PomDependencyView) -> Seq<char> {
    "import without a version: "@ + key_of(dep)
}

/// The id of the description that `dep` imports, with `version` as its
/// version, after substitution of the properties.
pub open spec fn import_id(
    dep: PomDependencyView,
    version: Seq<char>,
    properties: Seq<(Seq<char>, Seq<char>)>,
) -> PomIdView {
    PomIdView {
        group_id: substitute(dep.group_id, properties),
        artifact_id: substitute(dep.artifact_id, properties),
        version: substitute(version, properties),
    }
}

/// The outcome of resolving one description, and the descriptions visited by
/// then.
pub struct Resolved {
    pub result: Result<(PomView, ContextView), ResolveErrorView>,
    pub visited: Set<PomIdView>,
}

/// The outcome of the imports of one description, and the descriptions visited
/// by then.
pub struct Imported {
    pub result: Result<ContextView, ResolveErrorView>,
    pub visited: Set<PomIdView>,
}

/// The resolution of a description whose imports gave `imported`.
pub open spec fn finish(pom: PomView, imported: Imported) -> Resolved {
    Resolved {
        result: match imported.result {
            Ok(context) => Ok((pom, context)),
            Err(e) => Err(e),
        },
        visited: imported.visited,
    }
}

/// The resolution of the description `id`.
///
/// A description that the store lacks is reported as missing.  One that could
/// not be parsed is reported as invalid.  One that was visited before is
/// returned as it is, with an empty context: this ends every cycle.  Any other
/// is marked as visited; its parent, if it names one, is resolved first and
/// hands down its context; then the description's own properties and managed
/// versions are merged in, and its imports are resolved from left to right.
/// The first failure on the way is the result.
pub open spec fn resolve(store: StoreView, id: PomIdView, visited: Set<PomIdView>) -> Resolved
    decreases remaining(store, visited), 0nat, 0nat,
{
    let i = document_index(store, id);
    if i >= store.len() {
        Resolved { result: Err(ResolveErrorView::Missing(id)), visited }
    } else {
        match store[i as int].1 {
            PomSourceView::Invalid(reason) => Resolved {
                result: Err(ResolveErrorView::Invalid(reason)),
                visited: visited.insert(id),
            },
            PomSourceView::Parsed(pom) => {
                if visited.contains(id) {
                    Resolved { result: Ok((pom, empty_context())), visited }
                } else {
                    let seen = visited.insert(id);
                    proof {
                        lemma_remaining_insert(store, visited, id);
                    }
                    match pom.parent {
                        None => {
                            let context = first_context(pom, None, empty_context());
                            finish(
                                inherit(pom),
                                import_from(
                                    store,
                                    table_values(context.dependency_management),
                                    0,
                                    context,
                                    seen,
                                ),
                            )
                        },
                        Some(parent_id) => {
                            let up = resolve(store, parent_id, seen);
                            let after = up.visited.union(seen);
                            proof {
                                lemma_remaining_monotone(store, seen, after);
                            }
                            match up.result {
                                Err(e) => Resolved { result: Err(e), visited: after },
                                Ok((parent, inherited)) => {
                                    let context = first_context(pom, Some(parent), inherited);
                                    finish(
                                        inherit(pom),
                                        import_from(
                                            store,
                                            table_values(context.dependency_management),
                                            0,
                                            context,
                                            after,
                                        ),
                                    )
                                },
                            }
                        },
                    }
                }
            },
        }
    }
}

/// The imports among `snapshot` from position `i` on, resolved from left to
/// right into `context`: each imported description adds its managed versions
/// for the keys that `context` does not manage yet.
pub open spec fn import_from(
    store: StoreView,
    snapshot: Seq<PomDependencyView>,
    i: int,
    context: ContextView,
    visited: Set<PomIdView>,
) -> Imported
    decreases remaining(store, visited), 1nat, snapshot.len() - i,
{
    if i < 0 || i >= snapshot.len() {
        Imported { result: Ok(context), visited }
    } else if !is_import(snapshot[i]) {
        import_from(store, snapshot, i + 1, context, visited)
    } else {
        match snapshot[i].version {
            None => Imported {
                result: Err(ResolveErrorView::Invalid(unversioned_import(snapshot[i]))),
                visited,
            },
            Some(version) => {
                let met = resolve(
                    store,
                    import_id(snapshot[i], version, context.properties),
                    visited,
                );
                let after = met.visited.union(visited);
                proof {
                    lemma_remaining_monotone(store, visited, after);
                }
                match met.result {
                    Err(e) => Imported { result: Err(e), visited: after },
                    Ok((_, imported)) => import_from(
                        store,
                        snapshot,
                        i + 1,
                        ContextView {
                            dependency_management: put_all_absent(
                                context.dependency_management,
                                imported.dependency_management,
                            ),
                            properties: context.properties,
                        },
                        after,
                    ),
                }
            },
        }
    }
}

/// The descriptions fetched so far.
#[derive(Debug, PartialEq, Eq)]
pub struct PomStore {
    pub documents: Vec<(PomId, PomSource)>,
}

impl DeepView for PomStore {
    type V = StoreView;

    open spec fn deep_view(&self) -> StoreView {
        self.documents.deep_view()
    }
}

impl PomStore {
    /// The store that holds nothing.
    pub fn new() -> (out: Self)
        ensures
            out.deep_view() == Seq::<(PomIdView, PomSourceView)>::empty(),
    {
        let out = PomStore { documents: Vec::new() };
        assert(out.deep_view() =~= Seq::<(PomIdView, PomSourceView)>::empty());
        out
    }

    /// The position of the description `id`, or the number of descriptions
    /// when the store lacks it.
    pub fn find(&self, id: &PomId) -> (i: usize)
        ensures
            i == document_index(self.deep_view(), id.deep_view()),
            i <= self.documents.len(),
    {
        let mut i: usize = 0;
        while i < self.documents.len()
            invariant
                i <= self.documents.len(),
                forall|j: int| 0 <= j < i ==> (#[trigger] self.deep_view()[j]).0 != id.deep_view(),
            decreases self.documents.len() - i,
        {
            assert(self.deep_view()[i as int].0 == self.documents@[i as int].0.deep_view());
            if self.documents[i].0.same_as(id) {
                proof {
                    lemma_document_index(self.deep_view(), id.deep_view(), i as int);
                }
                return i;
            }
            i += 1;
        }
        proof {
            lemma_document_index(self.deep_view(), id.deep_view(), i as int);
        }
        i
    }

    /// Whether the store holds the description `id`.
    pub fn holds(&self, id: &PomId) -> (yes: bool)
        ensures
            yes == (document_index(self.deep_view(), id.deep_view()) < self.deep_view().len()),
    {
        self.find(id) < self.documents.len()
    }

    /// Adds a description at the end.  An earlier one with the same id stays
    /// the one that is found.
    pub fn insert(&mut self, id: PomId, source: PomSource)
        ensures
            final(self).deep_view() == old(self).deep_view().push(
                (id.deep_view(), source.deep_view()),
            ),
    {
        let ghost before = self.deep_view();
        let ghost pair = (id.deep_view(), source.deep_view());
        self.documents.push((id, source));
        assert(self.deep_view() =~= before.push(pair));
    }
}

/// A set of description ids.
#[derive(Debug)]
pub struct PomIdSet {
    pub ids: Vec<PomId>,
}

impl View for PomIdSet {
    type V = Set<PomIdView>;

    open spec fn view(&self) -> Set<PomIdView> {
        self.ids.deep_view().to_set()
    }
}

impl PomIdSet {
    /// The empty set.
    pub fn new() -> (out: Self)
        ensures
            out@ == Set::<PomIdView>::empty(),
    {
        let out = PomIdSet { ids: Vec::new() };
        assert(out@ =~= Set::<PomIdView>::empty());
        out
    }

    /// Whether `id` is in the set.
    pub fn contains(&self, id: &PomId) -> (yes: bool)
        ensures
            yes == self@.contains(id.deep_view()),
    {
        let mut i: usize = 0;
        while i < self.ids.len()
            invariant
                i <= self.ids.len(),
                forall|j: int| 0 <= j < i ==> self.ids.deep_view()[j] != id.deep_view(),
            decreases self.ids.len() - i,
        {
            assert(self.ids.deep_view()[i as int] == self.ids@[i as int].deep_view());
            if self.ids[i].same_as(id) {
                return true;
            }
            i += 1;
        }
        false
    }

    /// Puts `id` into the set.
    pub fn insert(&mut self, id: PomId)
        ensures
            final(self)@ == old(self)@.insert(id.deep_view()),
    {
        let ghost before = self.ids.deep_view();
        let ghost idv = id.deep_view();
        if !self.contains(&id) {
            self.ids.push(id);
            assert(self.ids.deep_view() =~= before.push(idv));
            assert(self@ =~= before.to_set().insert(idv)) by {
                assert forall|x: PomIdView| before.push(idv).contains(x) <==> before.to_set().insert(
                    idv,
                ).contains(x) by {
                    if before.push(idv).contains(x) {
                        let j = choose|j: int|
                            0 <= j < before.push(idv).len() && before.push(idv)[j] == x;
                        if j < before.len() {
                            assert(before[j] == x);
                        }
                    }
                    if before.contains(x) {
                        let j = choose|j: int| 0 <= j < before.len() && before[j] == x;
                        assert(before.push(idv)[j] == x);
                    }
                    if x == idv {
                        assert(before.push(idv)[before.len() as int] == x);
                    }
                }
            }
        } else {
            assert(self@ =~= self@.insert(idv));
        }
    }
}

/// The key under which the version of `dep` is managed.
pub fn dependency_key(dep: &PomDependency) -> (out: String)
    ensures
        out@ == key_of(dep.deep_view()),
{
    let mut out = dep.group_id.clone();
    out.append(":");
    out.append(dep.artifact_id.as_str());
    out
}

/// Whether `text` is there and reads `expected`.
pub fn text_is(text: &Option<String>, expected: &str) -> (yes: bool)
    ensures
        yes == (text.deep_view() == Some(expected@)),
{
    match text {
        Some(t) => str_eq(t.as_str(), expected),
        None => false,
    }
}

/// Whether `dep` imports the managed versions of another description.
pub fn is_import_entry(dep: &PomDependency) -> (yes: bool)
    ensures
        yes == is_import(dep.deep_view()),
{
    text_is(&dep.scope, "import") && text_is(&dep.kind, "pom")
}

/// `value` with the placeholder of each property replaced by its value.
pub fn substitute_properties(value: &str, properties: &Vec<(String, String)>) -> (out: String)
    ensures
        out@ == substitute(value@, properties.deep_view()),
{
    let mut out = String::from_str(value);
    let mut i: usize = 0;
    assert(properties.deep_view().take(0) =~= Seq::<(Seq<char>, Seq<char>)>::empty());
    while i < properties.len()
        invariant
            i <= properties.len(),
            out@ == substitute(value@, properties.deep_view().take(i as int)),
        decreases properties.len() - i,
    {
        proof {
            let next = properties.deep_view().take(i + 1);
            assert(next.drop_last() =~= properties.deep_view().take(i as int));
            assert(next.last() == (properties@[i as int].0@, properties@[i as int].1@));
        }
        let mut pattern = String::from_str("${");
        pattern.append(properties[i].0.as_str());
        pattern.append("}");
        out = replace(out.as_str(), pattern.as_str(), properties[i].1.as_str());
        i += 1;
    }
    assert(properties.deep_view().take(properties.len() as int) =~= properties.deep_view());
    out
}

/// Binds `key` to `value`: in place where the key was bound, at the end where
/// it was not.
pub fn set_property(table: &mut Vec<(String, String)>, key: &str, value: &str)
    ensures
        final(table).deep_view() == put(old(table).deep_view(), key@, value@),
{
    let ghost before = table.deep_view();
    let i = find_key(table, key);
    let pair = (String::from_str(key), String::from_str(value));
    if i < table.len() {
        table.set(i, pair);
        assert(table.deep_view() =~= before.update(i as int, (key@, value@)));
    } else {
        table.push(pair);
        assert(table.deep_view() =~= before.push((key@, value@)));
    }
}

/// Binds `key` to `value`, where there is a value.
pub fn set_property_if_some(table: &mut Vec<(String, String)>, key: &str, value: &Option<String>)
    ensures
        final(table).deep_view() == put_some(old(table).deep_view(), key@, value.deep_view()),
{
    match value {
        Some(v) => set_property(table, key, v.as_str()),
        None => {},
    }
}

/// The properties of the description `pom`, whose identity is settled, below
/// a parent with the properties `inherited`.
pub fn merge_properties(
    inherited: Vec<(String, String)>,
    pom: &Pom,
    parent: &Option<Pom>,
) -> (out: Vec<(String, String)>)
    ensures
        out.deep_view() == merged_properties(
            inherited.deep_view(),
            pom.deep_view(),
            parent.deep_view(),
        ),
{
    let mut out = inherited;
    set_property_if_some(&mut out, "project.groupId", &pom.group_id);
    set_property_if_some(&mut out, "project.artifactId", &pom.artifact_id);
    set_property_if_some(&mut out, "project.version", &pom.version);
    match parent {
        Some(pp) => {
            set_property_if_some(&mut out, "project.parent.groupId", &pp.group_id);
            set_property_if_some(&mut out, "project.parent.version", &pp.version);
        },
        None => {},
    }
    let ghost start = out.deep_view();
    let mut i: usize = 0;
    assert(pom.properties.deep_view().take(0) =~= Seq::<(Seq<char>, Seq<char>)>::empty());
    while i < pom.properties.len()
        invariant
            i <= pom.properties.len(),
            out.deep_view() == put_all(start, pom.properties.deep_view().take(i as int)),
        decreases pom.properties.len() - i,
    {
        proof {
            let next = pom.properties.deep_view().take(i + 1);
            assert(next.drop_last() =~= pom.properties.deep_view().take(i as int));
            assert(next.last() == (pom.properties@[i as int].0@, pom.properties@[i as int].1@));
        }
        set_property(&mut out, pom.properties[i].0.as_str(), pom.properties[i].1.as_str());
        i += 1;
    }
    assert(pom.properties.deep_view().take(pom.properties.len() as int)
        =~= pom.properties.deep_view());
    out
}

/// Manages `dep` under `key` at the end of `table`, unless the key is managed.
pub fn add_if_absent(table: &mut Vec<(String, PomDependency)>, key: String, dep: PomDependency)
    ensures
        final(table).deep_view() == put_if_absent(old(table).deep_view(), key@, dep.deep_view()),
{
    let ghost before = table.deep_view();
    let ghost pair = (key@, dep.deep_view());
    let i = find_key(table, key.as_str());
    if i >= table.len() {
        table.push((key, dep));
        assert(table.deep_view() =~= before.push(pair));
    }
}

/// Adds to `table` what `more` manages under the keys that `table` does not
/// manage.
pub fn import_absent(table: &mut Vec<(String, PomDependency)>, more: &Vec<(String, PomDependency)>)
    ensures
        final(table).deep_view() == put_all_absent(old(table).deep_view(), more.deep_view()),
{
    let ghost start = table.deep_view();
    let mut i: usize = 0;
    assert(more.deep_view().take(0) =~= Seq::<(Seq<char>, PomDependencyView)>::empty());
    while i < more.len()
        invariant
            i <= more.len(),
            table.deep_view() == put_all_absent(start, more.deep_view().take(i as int)),
        decreases more.len() - i,
    {
        proof {
            let next = more.deep_view().take(i + 1);
            assert(next.drop_last() =~= more.deep_view().take(i as int));
            assert(next.last() == (more@[i as int].0@, more@[i as int].1.deep_view()));
        }
        add_if_absent(table, more[i].0.clone(), more[i].1.clone());
        i += 1;
    }
    assert(more.deep_view().take(more.len() as int) =~= more.deep_view());
}

/// The managed versions of a description that declares `declared`, below a
/// parent that manages `inherited`.
pub fn merge_management(
    declared: &Vec<PomDependency>,
    inherited: &Vec<(String, PomDependency)>,
) -> (out: Vec<(String, PomDependency)>)
    ensures
        out.deep_view() == merged_management(declared.deep_view(), inherited.deep_view()),
{
    let mut out: Vec<(String, PomDependency)> = Vec::new();
    let ghost pairs = managed_pairs(declared.deep_view());
    let mut i: usize = 0;
    assert(out.deep_view() =~= Seq::<(Seq<char>, PomDependencyView)>::empty());
    assert(pairs.take(0) =~= Seq::<(Seq<char>, PomDependencyView)>::empty());
    while i < declared.len()
        invariant
            i <= declared.len(),
            pairs == managed_pairs(declared.deep_view()),
            out.deep_view() == put_all_absent(Seq::empty(), pairs.take(i as int)),
        decreases declared.len() - i,
    {
        proof {
            let next = pairs.take(i + 1);
            assert(next.drop_last() =~= pairs.take(i as int));
            assert(next.last() == (
                key_of(declared@[i as int].deep_view()),
                declared@[i as int].deep_view(),
            ));
        }
        add_if_absent(&mut out, dependency_key(&declared[i]), declared[i].clone());
        i += 1;
    }
    assert(pairs.take(declared.len() as int) =~= pairs);
    import_absent(&mut out, inherited);
    out
}

/// `pom` with the group and the version of the parent it names, where it
/// declares none of its own.
pub fn inherit_identity(pom: &Pom) -> (out: Pom)
    ensures
        out.deep_view() == inherit(pom.deep_view()),
{
    let mut out = pom.clone();
    if out.group_id.is_none() {
        out.group_id = match &pom.parent {
            Some(p) => Some(p.group_id.clone()),
            None => None,
        };
    }
    if out.version.is_none() {
        out.version = match &pom.parent {
            Some(p) => Some(p.version.clone()),
            None => None,
        };
    }
    assert(out.deep_view() =~= inherit(pom.deep_view()));
    out
}

/// The dependencies that `table` manages, in the table's order.
pub fn values_of(table: &Vec<(String, PomDependency)>) -> (out: Vec<PomDependency>)
    ensures
        out.deep_view() == table_values(table.deep_view()),
{
    let mut out: Vec<PomDependency> = Vec::new();
    let mut i: usize = 0;
    while i < table.len()
        invariant
            i <= table.len(),
            out.deep_view() == table_values(table.deep_view()).take(i as int),
        decreases table.len() - i,
    {
        let ghost before = out.deep_view();
        out.push(table[i].1.clone());
        assert(out.deep_view() =~= before.push(table@[i as int].1.deep_view()));
        assert(out.deep_view() =~= table_values(table.deep_view()).take(i + 1));
        i += 1;
    }
    assert(out.deep_view() =~= table_values(table.deep_view()));
    out
}

/// What the outcome of a resolution stands for.
pub open spec fn resolution_view(out: Result<(Pom, ResolutionContext), ResolveError>) -> Result<
    (PomView, ContextView),
    ResolveErrorView,
> {
    match out {
        Ok((pom, context)) => Ok((pom.deep_view(), context.deep_view())),
        Err(e) => Err(e.deep_view()),
    }
}

/// What is reported of an import that names no version.
pub fn unversioned_import_message(dep: &PomDependency) -> (out: String)
    ensures
        out@ == unversioned_import(dep.deep_view()),
{
    let mut out = String::from_str("import without a version: ");
    let key = dependency_key(dep);
    out.append(key.as_str());
    out
}

/// Resolves the description `pom_id` against the descriptions in `store`:
/// the description with its identity settled, and its context.  `visited`
/// holds the descriptions met so far and gains those met on the way.
pub fn resolve_context_recursive(store: &PomStore, pom_id: &PomId, visited: &mut PomIdSet) -> (out:
    Result<(Pom, ResolutionContext), ResolveError>)
    ensures
        resolution_view(out) == resolve(
            store.deep_view(),
            pom_id.deep_view(),
            old(visited)@,
        ).result,
        final(visited)@ == resolve(store.deep_view(), pom_id.deep_view(), old(visited)@).visited,
        old(visited)@.subset_of(final(visited)@),
    decreases remaining(store.deep_view(), old(visited)@),
{
    let ghost sv = store.deep_view();
    let ghost idv = pom_id.deep_view();
    let ghost v0 = visited@;
    let i = store.find(pom_id);
    if i >= store.documents.len() {
        return Err(ResolveError::Missing(pom_id.clone()));
    }
    assert(sv[i as int].1 == store.documents@[i as int].1.deep_view());
    let pom: &Pom = match &store.documents[i].1 {
        PomSource::Invalid(reason) => {
            let e = ResolveError::Invalid(reason.clone());
            visited.insert(pom_id.clone());
            return Err(e);
        },
        PomSource::Parsed(pom) => pom,
    };
    if visited.contains(pom_id) {
        return Ok((pom.clone(), ResolutionContext::new()));
    }
    visited.insert(pom_id.clone());
    let ghost seen = visited@;
    proof {
        lemma_remaining_insert(sv, v0, idv);
    }
    let mut parent_pom: Option<Pom> = None;
    let mut inherited = ResolutionContext::new();
    match &pom.parent {
        Some(p) => {
            let parent_id = PomId {
                group_id: p.group_id.clone(),
                artifact_id: p.artifact_id.clone(),
                version: p.version.clone(),
            };
            match resolve_context_recursive(store, &parent_id, visited) {
                Err(e) => {
                    assert(visited@.union(seen) =~= visited@);
                    return Err(e);
                },
                Ok((up_pom, up_context)) => {
                    parent_pom = Some(up_pom);
                    inherited = up_context;
                },
            }
            assert(visited@.union(seen) =~= visited@);
        },
        None => {},
    }
    let ghost after = visited@;
    proof {
        lemma_remaining_monotone(sv, seen, after);
    }
    let pom2 = inherit_identity(pom);
    let ghost inherited_view = inherited.deep_view();
    let ResolutionContext { dependency_management: inherited_table, properties: inherited_properties } =
        inherited;
    let properties = merge_properties(inherited_properties, &pom2, &parent_pom);
    let table = merge_management(&pom.dependency_management, &inherited_table);
    let mut context = ResolutionContext { dependency_management: table, properties };
    let ghost c0 = context.deep_view();
    assert(c0 =~= first_context(pom.deep_view(), parent_pom.deep_view(), inherited_view));
    let snapshot = values_of(&context.dependency_management);
    let ghost snap = snapshot.deep_view();
    let ghost goal = finish(pom2.deep_view(), import_from(sv, snap, 0, c0, after));
    assert(resolve(sv, idv, v0) == goal);
    let mut k: usize = 0;
    while k < snapshot.len()
        invariant
            k <= snapshot.len(),
            snap == snapshot.deep_view(),
            sv == store.deep_view(),
            idv == pom_id.deep_view(),
            v0 == old(visited)@,
            resolve(sv, idv, v0) == goal,
            goal == finish(pom2.deep_view(), import_from(sv, snap, 0, c0, after)),
            seen.subset_of(visited@),
            v0.subset_of(seen),
            remaining(sv, seen) < remaining(sv, v0),
            import_from(sv, snap, k as int, context.deep_view(), visited@) == import_from(
                sv,
                snap,
                0,
                c0,
                after,
            ),
        decreases snapshot.len() - k,
    {
        let dep = &snapshot[k];
        assert(snap[k as int] == dep.deep_view());
        let ghost before = visited@;
        let ghost context_before = context.deep_view();
        proof {
            lemma_remaining_monotone(sv, seen, before);
        }
        if is_import_entry(dep) {
            match &dep.version {
                None => {
                    return Err(ResolveError::Invalid(unversioned_import_message(dep)));
                },
                Some(version) => {
                    let import_pom_id = PomId {
                        group_id: substitute_properties(dep.group_id.as_str(), &context.properties),
                        artifact_id: substitute_properties(
                            dep.artifact_id.as_str(),
                            &context.properties,
                        ),
                        version: substitute_properties(version.as_str(), &context.properties),
                    };
                    assert(import_pom_id.deep_view() =~= import_id(
                        dep.deep_view(),
                        version@,
                        context_before.properties,
                    ));
                    match resolve_context_recursive(store, &import_pom_id, visited) {
                        Err(e) => {
                            assert(visited@.union(before) =~= visited@);
                            return Err(e);
                        },
                        Ok((_, imported)) => {
                            assert(visited@.union(before) =~= visited@);
                            import_absent(
                                &mut context.dependency_management,
                                &imported.dependency_management,
                            );
                            assert(context.deep_view() =~= ContextView {
                                dependency_management: put_all_absent(
                                    context_before.dependency_management,
                                    imported.deep_view().dependency_management,
                                ),
                                properties: context_before.properties,
                            });
                        },
                    }
                },
            }
        }
        k += 1;
    }
    Ok((pom2, context))
}

/// Whether `dep` is marked optional.
pub open spec fn is_optional(dep: PomDependencyView) -> bool {
    match dep.optional {
        Some(o) => contains_sub(o, "true"@),
        None => false,
    }
}

/// The version that `dep` gets: its own, or else the one that `context`
/// manages for its key.
pub open spec fn settled_version(dep: PomDependencyView, context: ContextView) -> Option<Seq<char>> {
    match dep.version {
        Some(v) => Some(v),
        None => match lookup(context.dependency_management, key_of(dep)) {
            Some(managed) => managed.version,
            None => None,
        },
    }
}

/// The scope of `dep`, `compile` when it declares none.
pub open spec fn settled_scope(dep: PomDependencyView) -> Seq<char> {
    match dep.scope {
        Some(s) => s,
        None => "compile"@,
    }
}

/// Whether `version` is a version in full: it is not empty and holds no
/// placeholder that the properties left standing.
pub open spec fn is_resolved(version: Seq<char>) -> bool {
    version.len() > 0 && !contains_sub(version, "${"@)
}

/// The effective form of the declared dependency `dep`: none when no version
/// can be settled, when it is optional, or when its version is still not a
/// version in full after substitution of the properties; else its group,
/// artifact and version after that substitution, and its scope.
pub open spec fn effective_one(dep: PomDependencyView, context: ContextView) -> Option<
    EffectiveDependencyView,
> {
    match settled_version(dep, context) {
        None => None,
        Some(v) => if is_optional(dep) || !is_resolved(substitute(v, context.properties)) {
            None
        } else {
            Some(
                EffectiveDependencyView {
                    group_id: substitute(dep.group_id, context.properties),
                    artifact_id: substitute(dep.artifact_id, context.properties),
                    version: substitute(v, context.properties),
                    scope: Some(settled_scope(dep)),
                },
            )
        },
    }
}

/// The effective forms of the declared dependencies `deps`, in order.
pub open spec fn effective_list(deps: Seq<PomDependencyView>, context: ContextView) -> Seq<
    EffectiveDependencyView,
>
    decreases deps.len(),
{
    if deps.len() == 0 {
        Seq::empty()
    } else {
        match effective_one(deps.last(), context) {
            Some(e) => effective_list(deps.drop_last(), context).push(e),
            None => effective_list(deps.drop_last(), context),
        }
    }
}

/// The effective dependencies of the description `root`, or why there are
/// none.
pub open spec fn effective_dependencies(
    store: StoreView,
    root: PomIdView,
    visited: Set<PomIdView>,
) -> Result<Seq<EffectiveDependencyView>, ResolveErrorView> {
    match resolve(store, root, visited).result {
        Ok((pom, context)) => Ok(effective_list(pom.dependencies, context)),
        Err(e) => Err(e),
    }
}

/// What the outcome of `get_effective_dependencies` stands for.
pub open spec fn effective_view(out: Result<Vec<EffectiveDependency>, ResolveError>) -> Result<
    Seq<EffectiveDependencyView>,
    ResolveErrorView,
> {
    match out {
        Ok(list) => Ok(list.deep_view()),
        Err(e) => Err(e.deep_view()),
    }
}

/// The effective form of one declared dependency.
pub fn effective_dependency(dep: &PomDependency, context: &ResolutionContext) -> (out: Option<
    EffectiveDependency,
>)
    ensures
        out.deep_view() == effective_one(dep.deep_view(), context.deep_view()),
{
    let key = dependency_key(dep);
    let version: Option<String> = match &dep.version {
        Some(v) => Some(v.clone()),
        None => {
            let i = find_key(&context.dependency_management, key.as_str());
            if i < context.dependency_management.len() {
                assert(context.deep_view().dependency_management[i as int].1
                    == context.dependency_management@[i as int].1.deep_view());
                clone_text(&context.dependency_management[i].1.version)
            } else {
                None
            }
        },
    };
    assert(version.deep_view() == settled_version(dep.deep_view(), context.deep_view()));
    match version {
        None => None,
        Some(v) => {
            let optional = match &dep.optional {
                Some(o) => contains(o.as_str(), "true"),
                None => false,
            };
            if optional {
                return None;
            }
            let resolved = substitute_properties(v.as_str(), &context.properties);
            if resolved.as_str().is_empty() || contains(resolved.as_str(), "${") {
                return None;
            }
            let scope = match &dep.scope {
                Some(s) => s.clone(),
                None => String::from_str("compile"),
            };
            let out = EffectiveDependency {
                group_id: substitute_properties(dep.group_id.as_str(), &context.properties),
                artifact_id: substitute_properties(dep.artifact_id.as_str(), &context.properties),
                version: resolved,
                scope: Some(scope),
            };
            assert(Some(out.deep_view()) =~= effective_one(dep.deep_view(), context.deep_view()));
            Some(out)
        },
    }
}

/// The effective dependencies of the description `root_pom_id`: its declared
/// dependencies with their versions settled, without the optional ones and
/// without those for which no version in full is known.  Each has a version
/// that is not empty and holds no placeholder, and a scope.
pub fn get_effective_dependencies(
    store: &PomStore,
    root_pom_id: PomId,
    visited: &mut PomIdSet,
) -> (out: Result<Vec<EffectiveDependency>, ResolveError>)
    ensures
        effective_view(out) == effective_dependencies(
            store.deep_view(),
            root_pom_id.deep_view(),
            old(visited)@,
        ),
        out matches Ok(list) ==> forall|i: int|
            0 <= i < list.len() ==> is_resolved((#[trigger] list.deep_view()[i]).version)
                && list.deep_view()[i].scope is Some,
        final(visited)@ == resolve(
            store.deep_view(),
            root_pom_id.deep_view(),
            old(visited)@,
        ).visited,
{
    match resolve_context_recursive(store, &root_pom_id, visited) {
        Err(e) => Err(e),
        Ok((pom, context)) => {
            let mut out: Vec<EffectiveDependency> = Vec::new();
            let mut i: usize = 0;
            assert(pom.dependencies.deep_view().take(0) =~= Seq::<PomDependencyView>::empty());
            assert(out.deep_view() =~= Seq::<EffectiveDependencyView>::empty());
            while i < pom.dependencies.len()
                invariant
                    i <= pom.dependencies.len(),
                    out.deep_view() == effective_list(
                        pom.dependencies.deep_view().take(i as int),
                        context.deep_view(),
                    ),
                decreases pom.dependencies.len() - i,
            {
                let ghost before = out.deep_view();
                proof {
                    let next = pom.dependencies.deep_view().take(i + 1);
                    assert(next.drop_last() =~= pom.dependencies.deep_view().take(i as int));
                    assert(next.last() == pom.dependencies@[i as int].deep_view());
                }
                match effective_dependency(&pom.dependencies[i], &context) {
                    Some(e) => {
                        out.push(e);
                        assert(out.deep_view() =~= before.push(e.deep_view()));
                    },
                    None => {},
                }
                i += 1;
            }
            assert(pom.dependencies.deep_view().take(pom.dependencies.len() as int)
                =~= pom.dependencies.deep_view());
            proof {
                lemma_effective_resolved(pom.dependencies.deep_view(), context.deep_view());
            }
            Ok(out)
        },
    }
}

/// An import never replaces a managed version: a key that the context
/// manages before the imports is managed in the same way after them.
pub proof fn lemma_imports_keep_entries(
    store: StoreView,
    snapshot: Seq<PomDependencyView>,
    i: int,
    context: ContextView,
    visited: Set<PomIdView>,
    key: Seq<char>,
)
    requires
        has_key(context.dependency_management, key),
        import_from(store, snapshot, i, context, visited).result is Ok,
    ensures
        has_key(
            import_from(store, snapshot, i, context, visited).result->Ok_0.dependency_management,
            key,
        ),
        lookup(
            import_from(store, snapshot, i, context, visited).result->Ok_0.dependency_management,
            key,
        ) == lookup(context.dependency_management, key),
        import_from(store, snapshot, i, context, visited).result->Ok_0.properties
            == context.properties,
    decreases snapshot.len() - i,
{
    if 0 <= i < snapshot.len() {
        if !is_import(snapshot[i]) {
            lemma_imports_keep_entries(store, snapshot, i + 1, context, visited, key);
        } else {
            let version = snapshot[i].version->Some_0;
            let met = resolve(store, import_id(snapshot[i], version, context.properties), visited);
            let after = met.visited.union(visited);
            let imported = met.result->Ok_0.1;
            let next = ContextView {
                dependency_management: put_all_absent(
                    context.dependency_management,
                    imported.dependency_management,
                ),
                properties: context.properties,
            };
            lemma_put_all_absent_keeps(
                context.dependency_management,
                imported.dependency_management,
                key,
            );
            lemma_imports_keep_entries(store, snapshot, i + 1, next, after, key);
        }
    }
}

/// What a description manages itself wins over its parent and over its
/// imports: after a resolution that did not stop at a visited description,
/// the context manages each key of the description's own list as the first
/// entry of that list with the key says.
pub proof fn lemma_declared_management_wins(
    store: StoreView,
    id: PomIdView,
    visited: Set<PomIdView>,
    j: int,
)
    requires
        !visited.contains(id),
        resolve(store, id, visited).result is Ok,
        0 <= j < resolve(store, id, visited).result->Ok_0.0.dependency_management.len(),
        forall|e: int|
            0 <= e < j ==> key_of(
                #[trigger] resolve(store, id, visited).result->Ok_0.0.dependency_management[e],
            ) != key_of(resolve(store, id, visited).result->Ok_0.0.dependency_management[j]),
    ensures
        lookup(
            resolve(store, id, visited).result->Ok_0.1.dependency_management,
            key_of(resolve(store, id, visited).result->Ok_0.0.dependency_management[j]),
        ) == Some(resolve(store, id, visited).result->Ok_0.0.dependency_management[j]),
{
    let i = document_index(store, id);
    let pom = store[i as int].1->Parsed_0;
    let seen = visited.insert(id);
    let declared = pom.dependency_management;
    let pairs = managed_pairs(declared);
    assert(inherit(pom).dependency_management == declared);
    assert forall|e: int| 0 <= e < j implies (#[trigger] pairs[e]).0 != pairs[j].0 by {
        assert(pairs[e].0 == key_of(declared[e]));
    }
    lemma_first_binding_stands(Seq::<(Seq<char>, PomDependencyView)>::empty(), pairs, j);
    let own = put_all_absent(Seq::<(Seq<char>, PomDependencyView)>::empty(), pairs);
    match pom.parent {
        None => {
            let context = first_context(pom, None, empty_context());
            lemma_put_all_absent_keeps(own, empty_context().dependency_management, pairs[j].0);
            lemma_imports_keep_entries(
                store,
                table_values(context.dependency_management),
                0,
                context,
                seen,
                pairs[j].0,
            );
        },
        Some(parent_id) => {
            let up = resolve(store, parent_id, seen);
            let after = up.visited.union(seen);
            let parent = up.result->Ok_0.0;
            let inherited = up.result->Ok_0.1;
            let context = first_context(pom, Some(parent), inherited);
            lemma_put_all_absent_keeps(own, inherited.dependency_management, pairs[j].0);
            lemma_imports_keep_entries(
                store,
                table_values(context.dependency_management),
                0,
                context,
                after,
                pairs[j].0,
            );
        },
    }
}

/// Every effective dependency has a version in full and a scope.
pub proof fn lemma_effective_resolved(deps: Seq<PomDependencyView>, context: ContextView)
    ensures
        forall|i: int|
            0 <= i < effective_list(deps, context).len() ==> is_resolved(
                (#[trigger] effective_list(deps, context)[i]).version,
            ) && effective_list(deps, context)[i].scope is Some,
    decreases deps.len(),
{
    if deps.len() > 0 {
        lemma_effective_resolved(deps.drop_last(), context);
    }
}

/// Each effective dependency stems from a declared dependency that is not
/// optional and whose version could be settled in full.
pub proof fn lemma_effective_sources(
    deps: Seq<PomDependencyView>,
    context: ContextView,
    e: EffectiveDependencyView,
)
    requires
        effective_list(deps, context).contains(e),
    ensures
        exists|j: int|
            0 <= j < deps.len() && !is_optional(#[trigger] deps[j]) && settled_version(
                deps[j],
                context,
            ) is Some && effective_one(deps[j], context) == Some(e),
    decreases deps.len(),
{
    if deps.len() > 0 {
        let rest = effective_list(deps.drop_last(), context);
        if effective_one(deps.last(), context) == Some(e) {
            assert(deps[deps.len() - 1] == deps.last());
        } else {
            assert(rest.contains(e)) by {
                let k = choose|k: int|
                    0 <= k < effective_list(deps, context).len() && effective_list(
                        deps,
                        context,
                    )[k] == e;
                if effective_one(deps.last(), context) is Some {
                    assert(k < rest.len());
                    assert(rest[k] == e);
                }
            }
            lemma_effective_sources(deps.drop_last(), context, e);
            let j = choose|j: int|
                0 <= j < deps.drop_last().len() && !is_optional(#[trigger] deps.drop_last()[j])
                    && settled_version(deps.drop_last()[j], context) is Some && effective_one(
                    deps.drop_last()[j],
                    context,
                ) == Some(e);
            assert(deps[j] == deps.drop_last()[j]);
        }
    }
}

/// A resolution only adds to the visited descriptions, and a description that
/// it reports as missing is one that the store lacks.
pub proof fn lemma_resolve_sound(store: StoreView, id: PomIdView, visited: Set<PomIdView>)
    ensures
        visited.subset_of(resolve(store, id, visited).visited),
        resolve(store, id, visited).result matches Err(ResolveErrorView::Missing(m))
            ==> document_index(store, m) >= store.len(),
    decreases remaining(store, visited), 0nat, 0nat,
{
    let i = document_index(store, id);
    if i < store.len() {
        match store[i as int].1 {
            PomSourceView::Invalid(_) => {},
            PomSourceView::Parsed(pom) => {
                if !visited.contains(id) {
                    let seen = visited.insert(id);
                    lemma_remaining_insert(store, visited, id);
                    match pom.parent {
                        None => {
                            let context = first_context(pom, None, empty_context());
                            lemma_import_sound(
                                store,
                                table_values(context.dependency_management),
                                0,
                                context,
                                seen,
                            );
                        },
                        Some(parent_id) => {
                            lemma_resolve_sound(store, parent_id, seen);
                            let up = resolve(store, parent_id, seen);
                            let after = up.visited.union(seen);
                            lemma_remaining_monotone(store, seen, after);
                            match up.result {
                                Err(_) => {},
                                Ok((parent, inherited)) => {
                                    let context = first_context(pom, Some(parent), inherited);
                                    lemma_import_sound(
                                        store,
                                        table_values(context.dependency_management),
                                        0,
                                        context,
                                        after,
                                    );
                                },
                            }
                        },
                    }
                }
            },
        }
    }
}

/// The imports only add to the visited descriptions, and a description that
/// they report as missing is one that the store lacks.
pub proof fn lemma_import_sound(
    store: StoreView,
    snapshot: Seq<PomDependencyView>,
    i: int,
    context: ContextView,
    visited: Set<PomIdView>,
)
    ensures
        visited.subset_of(import_from(store, snapshot, i, context, visited).visited),
        import_from(store, snapshot, i, context, visited).result matches Err(
            ResolveErrorView::Missing(m),
        ) ==> document_index(store, m) >= store.len(),
    decreases remaining(store, visited), 1nat, snapshot.len() - i,
{
    if 0 <= i < snapshot.len() {
        if !is_import(snapshot[i]) {
            lemma_import_sound(store, snapshot, i + 1, context, visited);
        } else {
            match snapshot[i].version {
                None => {},
                Some(version) => {
                    let wanted = import_id(snapshot[i], version, context.properties);
                    lemma_resolve_sound(store, wanted, visited);
                    let met = resolve(store, wanted, visited);
                    let after = met.visited.union(visited);
                    lemma_remaining_monotone(store, visited, after);
                    match met.result {
                        Err(_) => {},
                        Ok((_, imported)) => {
                            lemma_import_sound(
                                store,
                                snapshot,
                                i + 1,
                                ContextView {
                                    dependency_management: put_all_absent(
                                        context.dependency_management,
                                        imported.dependency_management,
                                    ),
                                    properties: context.properties,
                                },
                                after,
                            );
                        },
                    }
                },
            }
        }
    }
}

/// What the parent manages is handed down: after a resolution that did not
/// stop at a visited description, a key that the description does not manage
/// itself, and that the context of its parent manages, is managed as in the
/// context of the parent.
pub proof fn lemma_inherited_management_stands(
    store: StoreView,
    id: PomIdView,
    visited: Set<PomIdView>,
    key: Seq<char>,
)
    requires
        !visited.contains(id),
        resolve(store, id, visited).result is Ok,
        resolve(store, id, visited).result->Ok_0.0.parent is Some,
        forall|e: int|
            0 <= e < resolve(store, id, visited).result->Ok_0.0.dependency_management.len()
                ==> key_of(
                #[trigger] resolve(store, id, visited).result->Ok_0.0.dependency_management[e],
            ) != key,
        has_key(
            resolve(
                store,
                resolve(store, id, visited).result->Ok_0.0.parent->Some_0,
                visited.insert(id),
            ).result->Ok_0.1.dependency_management,
            key,
        ),
    ensures
        resolve(
            store,
            resolve(store, id, visited).result->Ok_0.0.parent->Some_0,
            visited.insert(id),
        ).result is Ok,
        lookup(resolve(store, id, visited).result->Ok_0.1.dependency_management, key) == lookup(
            resolve(
                store,
                resolve(store, id, visited).result->Ok_0.0.parent->Some_0,
                visited.insert(id),
            ).result->Ok_0.1.dependency_management,
            key,
        ),
{
    let i = document_index(store, id);
    let pom = store[i as int].1->Parsed_0;
    let seen = visited.insert(id);
    let declared = pom.dependency_management;
    let pairs = managed_pairs(declared);
    assert(inherit(pom).dependency_management == declared);
    assert(inherit(pom).parent == pom.parent);
    let parent_id = pom.parent->Some_0;
    let up = resolve(store, parent_id, seen);
    let after = up.visited.union(seen);
    let parent = up.result->Ok_0.0;
    let inherited = up.result->Ok_0.1;
    let context = first_context(pom, Some(parent), inherited);
    let own = put_all_absent(Seq::<(Seq<char>, PomDependencyView)>::empty(), pairs);
    assert(!has_key(own, key)) by {
        if has_key(own, key) {
            lemma_put_all_absent_keys(Seq::<(Seq<char>, PomDependencyView)>::empty(), pairs, key);
            let e = choose|e: int| 0 <= e < pairs.len() && (#[trigger] pairs[e]).0 == key;
            assert(key_of(declared[e]) == key);
        }
    }
    lemma_key_index_found(inherited.dependency_management, key);
    let first = crate::table::key_index(inherited.dependency_management, key) as int;
    lemma_first_binding_stands(own, inherited.dependency_management, first);
    lemma_imports_keep_entries(
        store,
        table_values(context.dependency_management),
        0,
        context,
        after,
        key,
    );
}

/// A placeholder starts with `$`, ends with `}` and has the key between
/// `${` and `}`.
pub proof fn lemma_placeholder_shape(key: Seq<char>)
    ensures
        placeholder(key).len() == key.len() + 3,
        placeholder(key)[0] == '$',
        placeholder(key)[1] == '{',
        placeholder(key)[key.len() as int + 2] == '}',
        forall|j: int| 0 <= j < key.len() ==> placeholder(key)[j + 2] == #[trigger] key[j],
{
    reveal_strlit("${");
    reveal_strlit("}");
}

/// A text without `$` holds no placeholder.
pub proof fn lemma_no_dollar_no_placeholder(text: Seq<char>, key: Seq<char>)
    requires
        !text.contains('$'),
    ensures
        !contains_sub(text, placeholder(key)),
{
    lemma_placeholder_shape(key);
    if contains_sub(text, placeholder(key)) {
        let i = choose|i: int| is_match_at(text, placeholder(key), i);
        assert(text.subrange(i, i + placeholder(key).len())[0] == text[i]);
        assert(text.contains(text[i]));
    }
}

/// The placeholder of one key does not occur in the placeholder of another
/// key that holds neither `$` nor `}`.
pub proof fn lemma_placeholders_apart(key: Seq<char>, other: Seq<char>)
    requires
        !key.contains('$'),
        !key.contains('}'),
        other != key,
    ensures
        !contains_sub(placeholder(key), placeholder(other)),
{
    let whole = placeholder(key);
    let part = placeholder(other);
    lemma_placeholder_shape(key);
    lemma_placeholder_shape(other);
    if contains_sub(whole, part) {
        let i = choose|i: int| is_match_at(whole, part, i);
        let cut = whole.subrange(i, i + part.len());
        assert(cut[0] == whole[i]);
        if i > 0 {
            if i < key.len() + 2 {
                if i >= 2 {
                    assert(whole[(i - 2) + 2] == key[i - 2]);
                    assert(key.contains(key[i - 2]));
                }
            }
        } else {
            assert forall|j: int| 0 <= j < other.len() implies other[j] == key[j] by {
                assert(cut[j + 2] == whole[j + 2]);
                assert(part[j + 2] == other[j]);
            }
            if other.len() < key.len() {
                let n = other.len() as int;
                assert(cut[n + 2] == whole[n + 2]);
                assert(whole[n + 2] == key[n]);
                assert(key.contains(key[n]));
            } else {
                assert(other =~= key);
            }
        }
    }
}

/// A property settles its placeholder: where the properties bind a key that
/// holds neither `$` nor `}` to a value that holds no `$`, substitution turns
/// the placeholder of that key into that value, whatever else the properties
/// bind.
pub proof fn lemma_substitute_placeholder(
    key: Seq<char>,
    properties: Seq<(Seq<char>, Seq<char>)>,
)
    requires
        !key.contains('$'),
        !key.contains('}'),
        has_key(properties, key) ==> !lookup(properties, key)->Some_0.contains('$'),
    ensures
        has_key(properties, key) ==> substitute(placeholder(key), properties) == lookup(
            properties,
            key,
        )->Some_0,
        !has_key(properties, key) ==> substitute(placeholder(key), properties) == placeholder(
            key,
        ),
    decreases properties.len(),
{
    if properties.len() > 0 {
        let rest = properties.drop_last();
        let last = properties.last();
        lemma_key_index_found(properties, key);
        lemma_key_index_found(rest, key);
        lemma_placeholder_shape(key);
        lemma_placeholder_shape(last.0);
        let k = key_index(rest, key) as int;
        assert forall|j: int| 0 <= j < k implies (#[trigger] properties[j]).0 != key by {
            assert(properties[j] == rest[j]);
        }
        if k < rest.len() {
            assert(properties[k] == rest[k]);
            lemma_key_index(properties, key, k);
            lemma_substitute_placeholder(key, rest);
            lemma_no_dollar_no_placeholder(rest[k].1, last.0);
            lemma_replace_absent(rest[k].1, placeholder(last.0), last.1);
        } else {
            lemma_substitute_placeholder(key, rest);
            if last.0 == key {
                lemma_key_index(properties, key, rest.len() as int);
                lemma_replace_whole(placeholder(key), last.1);
            } else {
                lemma_key_index(properties, key, properties.len() as int);
                lemma_placeholders_apart(key, last.0);
                lemma_replace_absent(placeholder(key), placeholder(last.0), last.1);
            }
        }
    }
}

} // verus!
