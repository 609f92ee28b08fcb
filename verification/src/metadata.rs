//! The workspace metadata snapshot and membership filtering.
//!
//! `WorkspaceMetadata` is a read-only description of a real workspace,
//! produced once per run by an external metadata query and treated here as a
//! pure value: the workspace root, the lockfile, the artifact output
//! directory, the identifiers of the member packages, and every package the
//! query reported — a superset of the members; only the members matter
//! downstream. Membership is decided by identifier lookup, and the order in
//! which member packages are kept is the order in which the query listed
//! them.

use crate::paths::WsPath;
use vstd::prelude::*;

verus! {

/// A build target: a compilation unit identified by its source entry-point
/// path, which must lie strictly under its package's manifest directory.
pub struct Target {
    pub src_path: WsPath,
}

/// A package of the metadata graph: an identifier unique within the graph,
/// the package's manifest path, and its build targets.
pub struct Package {
    pub id: String,
    pub manifest_path: WsPath,
    pub targets: Vec<Target>,
}

/// The metadata snapshot of a workspace.
pub struct WorkspaceMetadata {
    pub workspace_root: WsPath,
    pub lockfile: WsPath,
    pub output_dir: WsPath,
    pub members: Vec<String>,
    pub packages: Vec<Package>,
}

/// The member identifiers, as sequences of characters.
pub open spec fn member_ids(md: WorkspaceMetadata) -> Seq<Seq<char>> {
    md.members.deep_view()
}

/// The packages of `packages` whose identifier occurs in `members`, in their
/// original order.
pub open spec fn member_packages_of(
    packages: Seq<Package>,
    members: Seq<Seq<char>>,
) -> Seq<Package>
    decreases packages.len(),
{
    if packages.len() == 0 {
        Seq::<Package>::empty()
    } else {
        member_packages_of(packages.drop_last(), members) + (if members.contains(
            packages.last().id@,
        ) {
            seq![packages.last()]
        } else {
            Seq::<Package>::empty()
        })
    }
}

/// The member packages of the snapshot, in the order the query listed them.
pub open spec fn member_packages(md: WorkspaceMetadata) -> Seq<Package> {
    member_packages_of(md.packages@, member_ids(md))
}

/// One forward step of the filter: the member packages of a prefix one longer
/// grow by the next package exactly when its identifier is a member.
pub proof fn lemma_member_packages_of_take_step(
    packages: Seq<Package>,
    members: Seq<Seq<char>>,
    i: int,
)
    requires
        0 <= i < packages.len(),
    ensures
        member_packages_of(packages.take(i + 1), members) == member_packages_of(
            packages.take(i),
            members,
        ) + (if members.contains(packages[i].id@) {
            seq![packages[i]]
        } else {
            Seq::<Package>::empty()
        }),
{
    let pre = packages.take(i + 1);
    assert(pre.drop_last() =~= packages.take(i));
    assert(pre.last() == packages[i]);
}

/// Whether `id` occurs in `members`.
pub fn id_is_member(members: &Vec<String>, id: &String) -> (r: bool)
    ensures
        r == members.deep_view().contains(id@),
{
    let n = members.len();
    let mut i: usize = 0;
    while i < n
        invariant
            i <= n,
            n == members.len(),
            forall|j: int| 0 <= j < i ==> members.deep_view()[j] != id@,
        decreases n - i,
    {
        if members[i] == *id {
            proof {
                assert(members.deep_view()[i as int] == id@);
            }
            return true;
        }
        i += 1;
    }
    false
}

/// The manifest paths of the member packages, in order. These are the files
/// whose bytes, together with the lockfile's, the materializer copies.
pub fn member_manifest_sources(md: &WorkspaceMetadata) -> (r: Vec<WsPath>)
    ensures
        r@.len() == member_packages(*md).len(),
        forall|i: int|
            0 <= i < r@.len() ==> r@[i]@ == #[trigger] member_packages(*md)[i].manifest_path@,
{
    let n = md.packages.len();
    let mut r: Vec<WsPath> = Vec::new();
    let mut i: usize = 0;
    while i < n
        invariant
            i <= n,
            n == md.packages.len(),
            r@.len() == member_packages_of(md.packages@.take(i as int), member_ids(*md)).len(),
            forall|j: int|
                0 <= j < r@.len() ==> r@[j]@ == #[trigger] member_packages_of(
                    md.packages@.take(i as int),
                    member_ids(*md),
                )[j].manifest_path@,
        decreases n - i,
    {
        proof {
            lemma_member_packages_of_take_step(md.packages@, member_ids(*md), i as int);
        }
        if id_is_member(&md.members, &md.packages[i].id) {
            r.push(md.packages[i].manifest_path.duplicate());
        }
        i += 1;
    }
    proof {
        assert(md.packages@.take(n as int) =~= md.packages@);
    }
    r
}

} // verus!
