//! Where the repository lists the versions of an artifact.

use crate::install::repository;
use crate::text::{replace, replace_all};
use vstd::prelude::*;
use vstd::string::StringExecFns;

verus! {

/// The address of the list of versions of an artifact.
pub open spec fn metadata_url(group: Seq<char>, artifact: Seq<char>) -> Seq<char> {
    repository() + replace_all(group, "."@, "/"@) + "/"@ + artifact + "/maven-metadata.xml"@
}

/// The address of the list of versions of the artifact `artifact_id` of the
/// group `group_id`.
pub fn maven_metadata_url(group_id: &str, artifact_id: &str) -> (out: String)
    ensures
        out@ == metadata_url(group_id@, artifact_id@),
{
    let path = replace(group_id, ".", "/");
    let mut out = String::from_str("https://repo1.maven.org/maven2/");
    out.append(path.as_str());
    out.append("/");
    out.append(artifact_id);
    out.append("/maven-metadata.xml");
    out
}

} // verus!
