//! Names of new projects: `namespace/artifact`.

use crate::text::{is_alpha, is_digit, split, split_any, to_chars};
use vstd::prelude::*;

verus! {

/// Whether `c` may stand in an identifier: an ASCII letter or digit, `_` or
/// `$`.
pub open spec fn is_identifier_char(c: char) -> bool {
    c == '_' || c == '$' || is_alpha(c) || is_digit(c)
}

/// Whether `name` is an identifier: not empty, made of identifier characters,
/// and not starting with a digit.
pub open spec fn is_identifier(name: Seq<char>) -> bool {
    &&& name.len() > 0
    &&& forall|i: int| 0 <= i < name.len() ==> is_identifier_char(#[trigger] name[i])
    &&& !is_digit(name[0])
}

/// Whether `namespace` is a namespace: identifiers with dots between them.
pub open spec fn is_namespace(namespace: Seq<char>) -> bool {
    forall|i: int|
        0 <= i < split_any(namespace, seq!['.']).len() ==> is_identifier(
            #[trigger] split_any(namespace, seq!['.'])[i],
        )
}

/// Why a project name is refused.
#[derive(Debug, PartialEq, Eq, Clone, Copy)]
pub enum NameError {
    /// The name is not made of two parts with one slash between them.
    Shape,
    /// A part of the namespace is no identifier.
    Namespace,
    /// The artifact is no identifier.
    ArtifactId,
}

impl NameError {
    /// The refusal in words.
    pub fn message(&self) -> (out: &'static str)
        ensures
            out@ == match *self {
                NameError::Shape => "⚠️ Input must contain exactly one '/' and two non-empty parts"@,
                NameError::Namespace => "⚠️ Your namespace contains an invalid java identifier"@,
                NameError::ArtifactId => "⚠️ Your artifactId contains an invalid java identifier"@,
            },
    {
        match self {
            NameError::Shape => "⚠️ Input must contain exactly one '/' and two non-empty parts",
            NameError::Namespace => "⚠️ Your namespace contains an invalid java identifier",
            NameError::ArtifactId => "⚠️ Your artifactId contains an invalid java identifier",
        }
    }
}

/// Whether `identifier` is an identifier.
pub fn is_valid_java_identifier(identifier: &str) -> (valid: bool)
    ensures
        valid == is_identifier(identifier@),
{
    let chars = to_chars(identifier);
    if chars.len() == 0 {
        return false;
    }
    let mut i: usize = 0;
    while i < chars.len()
        invariant
            i <= chars.len(),
            chars@ == identifier@,
            forall|j: int| 0 <= j < i ==> is_identifier_char(#[trigger] identifier@[j]),
        decreases chars.len() - i,
    {
        let c = chars[i];
        let fine = c == '_' || c == '$' || (c >= 'A' && c <= 'Z') || (c >= 'a' && c <= 'z') || (c
            >= '0' && c <= '9');
        if !fine {
            return false;
        }
        i += 1;
    }
    !(chars[0] >= '0' && chars[0] <= '9')
}

/// Accepts `namespace` where each of its parts between dots is an
/// identifier.
pub fn validate_namespace(namespace: &str) -> (out: Result<&str, NameError>)
    ensures
        match out {
            Ok(accepted) => is_namespace(namespace@) && accepted@ == namespace@,
            Err(e) => !is_namespace(namespace@) && e == NameError::Namespace,
        },
{
    let mut seps: Vec<char> = Vec::new();
    seps.push('.');
    assert(seps@ =~= seq!['.']);
    let parts = split(namespace, &seps);
    let mut i: usize = 0;
    while i < parts.len()
        invariant
            i <= parts.len(),
            parts.deep_view() == split_any(namespace@, seq!['.']),
            forall|j: int| 0 <= j < i ==> is_identifier(#[trigger] parts.deep_view()[j]),
        decreases parts.len() - i,
    {
        assert(parts.deep_view()[i as int] == parts@[i as int]@);
        if !is_valid_java_identifier(parts[i].as_str()) {
            return Err(NameError::Namespace);
        }
        i += 1;
    }
    Ok(namespace)
}

/// Accepts `artifact_id` where it is an identifier.
pub fn validate_artifact_id(artifact_id: &str) -> (out: Result<&str, NameError>)
    ensures
        match out {
            Ok(accepted) => is_identifier(artifact_id@) && accepted@ == artifact_id@,
            Err(e) => !is_identifier(artifact_id@) && e == NameError::ArtifactId,
        },
{
    if is_valid_java_identifier(artifact_id) {
        Ok(artifact_id)
    } else {
        Err(NameError::ArtifactId)
    }
}

/// What becomes of the project name `input`: its namespace and its artifact,
/// or the first reason to refuse it.
pub open spec fn project_name_of(input: Seq<char>) -> Result<(Seq<char>, Seq<char>), NameError> {
    let parts = split_any(input, seq!['/']);
    if parts.len() != 2 {
        Err(NameError::Shape)
    } else if !is_namespace(parts[0]) {
        Err(NameError::Namespace)
    } else if !is_identifier(parts[1]) {
        Err(NameError::ArtifactId)
    } else {
        Ok((parts[0], parts[1]))
    }
}

/// What the outcome of `parse_project_name` stands for.
pub open spec fn project_name_view(out: Result<(String, String), NameError>) -> Result<
    (Seq<char>, Seq<char>),
    NameError,
> {
    match out {
        Ok((namespace, artifact)) => Ok((namespace@, artifact@)),
        Err(e) => Err(e),
    }
}

/// Splits a project name into namespace and artifact and validates both.
pub fn parse_project_name(input: &str) -> (out: Result<(String, String), NameError>)
    ensures
        project_name_view(out) == project_name_of(input@),
{
    let mut seps: Vec<char> = Vec::new();
    seps.push('/');
    assert(seps@ =~= seq!['/']);
    let parts = split(input, &seps);
    if parts.len() != 2 {
        return Err(NameError::Shape);
    }
    assert(parts.deep_view()[0] == parts@[0]@);
    assert(parts.deep_view()[1] == parts@[1]@);
    match validate_namespace(parts[0].as_str()) {
        Err(e) => {
            return Err(e);
        },
        Ok(_) => {},
    }
    match validate_artifact_id(parts[1].as_str()) {
        Err(e) => {
            return Err(e);
        },
        Ok(_) => {},
    }
    Ok((parts[0].clone(), parts[1].clone()))
}

} // verus!
