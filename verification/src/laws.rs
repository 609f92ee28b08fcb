//! Properties of the skeleton as a whole, proved once and for all.
//!
//! The materializer's own contract pins the exact entry list down; the
//! lemmas here state the structural consequences a caller cares about: the
//! skeleton's shape does not depend on where the destination lies, every
//! produced path stays strictly inside the destination and keeps its
//! source's relative position, and no placeholder ever carries bytes.

use crate::metadata::{member_packages, member_packages_of, Package, Target, WorkspaceMetadata};
use crate::paths::{rebased, strictly_under};
use crate::skeleton::{
    dest_package_dir, manifest_entry, members_entries, members_violation, package_dir,
    package_entries, package_violation, skeleton_entries, stub_entries, stub_entry,
    targets_violation, EntryKind, EntryModel,
};
use vstd::prelude::*;

verus! {

/// Rebasing preserves the relative path: the result, taken relative to the
/// new base, is the original path taken relative to the old base.
pub proof fn lemma_rebased_relative(p: Seq<Seq<char>>, from: Seq<Seq<char>>, to: Seq<Seq<char>>)
    ensures
        rebased(p, from, to).skip(to.len() as int) == p.skip(from.len() as int),
{
    assert(rebased(p, from, to).skip(to.len() as int) =~= p.skip(from.len() as int));
}

/// Two skeleton entries produced at the same position for two destinations
/// agree on everything but the destination prefix of their paths.
pub open spec fn same_shape(
    e1: EntryModel,
    e2: EntryModel,
    d1: Seq<Seq<char>>,
    d2: Seq<Seq<char>>,
) -> bool {
    e1.kind == e2.kind && e1.content == e2.content && e1.path.skip(d1.len() as int) == e2.path.skip(
        d2.len() as int,
    )
}

/// A sequence of targets without a violation has every target strictly under
/// the package directory.
proof fn lemma_targets_violation_none(ts: Seq<Target>, pkg_dir: Seq<Seq<char>>)
    requires
        targets_violation(ts, pkg_dir) is None,
    ensures
        forall|i: int| 0 <= i < ts.len() ==> strictly_under(#[trigger] ts[i].src_path@, pkg_dir),
    decreases ts.len(),
{
    if ts.len() > 0 {
        lemma_targets_violation_none(ts.drop_last(), pkg_dir);
        assert forall|i: int| 0 <= i < ts.len() implies strictly_under(
            #[trigger] ts[i].src_path@,
            pkg_dir,
        ) by {
            if i < ts.len() - 1 {
                assert(ts.drop_last()[i] == ts[i]);
            }
        }
    }
}

/// One valid package's entries: identical shape for any two destinations,
/// and every path strictly inside its destination.
proof fn lemma_package_entries_shape(
    p: Package,
    root: Seq<Seq<char>>,
    d1: Seq<Seq<char>>,
    d2: Seq<Seq<char>>,
    b: Seq<u8>,
)
    requires
        package_violation(p, root) is None,
    ensures
        package_entries(p, root, d1, b).len() == package_entries(p, root, d2, b).len(),
        forall|i: int|
            0 <= i < package_entries(p, root, d1, b).len() ==> same_shape(
                #[trigger] package_entries(p, root, d1, b)[i],
                package_entries(p, root, d2, b)[i],
                d1,
                d2,
            ),
        forall|i: int|
            0 <= i < package_entries(p, root, d1, b).len() ==> strictly_under(
                (#[trigger] package_entries(p, root, d1, b)[i]).path,
                d1,
            ),
{
    assert(strictly_under(p.manifest_path@, root));
    lemma_targets_violation_none(p.targets@, package_dir(p));
    let x = p.manifest_path@.skip(root.len() as int);
    assert(x.len() >= 1);
    assert((d1 + x).skip(d1.len() as int) =~= x);
    assert((d2 + x).skip(d2.len() as int) =~= x);
    assert((d1 + x).take(d1.len() as int) =~= d1);
    assert(dest_package_dir(p, root, d1) =~= d1 + x.drop_last());
    assert(dest_package_dir(p, root, d2) =~= d2 + x.drop_last());
    assert forall|i: int|
        0 <= i < package_entries(p, root, d1, b).len() implies same_shape(
        #[trigger] package_entries(p, root, d1, b)[i],
        package_entries(p, root, d2, b)[i],
        d1,
        d2,
    ) && strictly_under((package_entries(p, root, d1, b)[i]).path, d1) by {
        if i == 0 {
            assert(package_entries(p, root, d1, b)[0] == manifest_entry(p, root, d1, b));
            assert(package_entries(p, root, d2, b)[0] == manifest_entry(p, root, d2, b));
            assert(strictly_under(d1 + x, d1));
        } else {
            let j = i - 1;
            assert(package_entries(p, root, d1, b)[i] == stub_entries(p, root, d1)[j]);
            assert(package_entries(p, root, d2, b)[i] == stub_entries(p, root, d2)[j]);
            let src = p.targets@[j].src_path@;
            assert(strictly_under(src, package_dir(p)));
            let y = src.skip(package_dir(p).len() as int);
            assert(y.len() >= 1);
            let rel = x.drop_last() + y;
            assert(rebased(src, package_dir(p), d1 + x.drop_last()) =~= d1 + rel);
            assert(rebased(src, package_dir(p), d2 + x.drop_last()) =~= d2 + rel);
            assert((d1 + rel).skip(d1.len() as int) =~= rel);
            assert((d2 + rel).skip(d2.len() as int) =~= rel);
            assert((d1 + rel).take(d1.len() as int) =~= d1);
            assert(strictly_under(d1 + rel, d1));
        }
    }
}

/// Entry lists of a valid member sequence: identical shape for any two
/// destinations, every path strictly inside the destination.
proof fn lemma_members_entries_shape(
    members: Seq<Package>,
    root: Seq<Seq<char>>,
    d1: Seq<Seq<char>>,
    d2: Seq<Seq<char>>,
    mans: Seq<Seq<u8>>,
)
    requires
        members_violation(members, root) is None,
    ensures
        members_entries(members, root, d1, mans).len() == members_entries(
            members,
            root,
            d2,
            mans,
        ).len(),
        forall|i: int|
            0 <= i < members_entries(members, root, d1, mans).len() ==> same_shape(
                #[trigger] members_entries(members, root, d1, mans)[i],
                members_entries(members, root, d2, mans)[i],
                d1,
                d2,
            ),
        forall|i: int|
            0 <= i < members_entries(members, root, d1, mans).len() ==> strictly_under(
                (#[trigger] members_entries(members, root, d1, mans)[i]).path,
                d1,
            ),
    decreases members.len(),
{
    if members.len() > 0 {
        lemma_members_entries_shape(members.drop_last(), root, d1, d2, mans.drop_last());
        lemma_package_entries_shape(members.last(), root, d1, d2, mans.last());
    }
}

/// Idempotent shape: one snapshot, two destinations — the skeletons have
/// the same number of entries, and entry for entry the same kind, the same
/// bytes, and the same path relative to their destinations. Nothing about
/// the skeleton depends on where the destination lies.
pub proof fn lemma_idempotent_shape(
    md: WorkspaceMetadata,
    d1: Seq<Seq<char>>,
    d2: Seq<Seq<char>>,
    lock: Seq<u8>,
    mans: Seq<Seq<u8>>,
)
    requires
        members_violation(member_packages(md), md.workspace_root@) is None,
    ensures
        skeleton_entries(md, d1, lock, mans).len() == skeleton_entries(md, d2, lock, mans).len(),
        forall|i: int|
            0 <= i < skeleton_entries(md, d1, lock, mans).len() ==> same_shape(
                #[trigger] skeleton_entries(md, d1, lock, mans)[i],
                skeleton_entries(md, d2, lock, mans)[i],
                d1,
                d2,
            ),
{
    let root = md.workspace_root@;
    let members = member_packages(md);
    lemma_members_entries_shape(members, root, d1, d2, mans);
    let name = md.lockfile@.last();
    assert(d1.push(name).skip(d1.len() as int) =~= seq![name]);
    assert(d2.push(name).skip(d2.len() as int) =~= seq![name]);
}

/// Containment: every entry of a valid skeleton lies strictly inside the
/// destination; no file is placed at or outside the destination root.
pub proof fn lemma_entries_within_destination(
    md: WorkspaceMetadata,
    dest: Seq<Seq<char>>,
    lock: Seq<u8>,
    mans: Seq<Seq<u8>>,
)
    requires
        members_violation(member_packages(md), md.workspace_root@) is None,
    ensures
        forall|i: int|
            0 <= i < skeleton_entries(md, dest, lock, mans).len() ==> strictly_under(
                (#[trigger] skeleton_entries(md, dest, lock, mans)[i]).path,
                dest,
            ),
{
    let root = md.workspace_root@;
    let members = member_packages(md);
    lemma_members_entries_shape(members, root, dest, dest, mans);
    let name = md.lockfile@.last();
    assert(dest.push(name).take(dest.len() as int) =~= dest);
    assert(strictly_under(dest.push(name), dest));
}

/// Containment, exactly: within one valid package, the manifest's skeleton
/// path relative to the destination equals the real manifest's path relative
/// to the workspace root, and each placeholder's path relative to the
/// destination package directory equals the real source's path relative to
/// the package directory.
pub proof fn lemma_containment_package(
    p: Package,
    root: Seq<Seq<char>>,
    dest: Seq<Seq<char>>,
    b: Seq<u8>,
)
    requires
        package_violation(p, root) is None,
    ensures
        package_entries(p, root, dest, b)[0].path.skip(dest.len() as int) == p.manifest_path@.skip(
            root.len() as int,
        ),
        forall|i: int|
            0 <= i < p.targets@.len() ==> (#[trigger] package_entries(p, root, dest, b)[i
                + 1]).path.skip(dest_package_dir(p, root, dest).len() as int)
                == p.targets@[i].src_path@.skip(package_dir(p).len() as int),
{
    lemma_rebased_relative(p.manifest_path@, root, dest);
    assert forall|i: int|
        0 <= i < p.targets@.len() implies (#[trigger] package_entries(p, root, dest, b)[i
        + 1]).path.skip(dest_package_dir(p, root, dest).len() as int) == p.targets@[i].src_path@.skip(
        package_dir(p).len() as int,
    ) by {
        assert(package_entries(p, root, dest, b)[i + 1] == stub_entries(p, root, dest)[i]);
        assert(stub_entries(p, root, dest)[i] == stub_entry(
            p.targets@[i],
            package_dir(p),
            dest_package_dir(p, root, dest),
        ));
        lemma_rebased_relative(
            p.targets@[i].src_path@,
            package_dir(p),
            dest_package_dir(p, root, dest),
        );
    }
}

/// No source leakage: whatever the metadata and whatever the real source
/// files hold, every placeholder entry of the skeleton is exactly empty. The
/// real sources' bytes are not even inputs here.
pub proof fn lemma_no_source_leakage(
    md: WorkspaceMetadata,
    dest: Seq<Seq<char>>,
    lock: Seq<u8>,
    mans: Seq<Seq<u8>>,
)
    ensures
        forall|i: int|
            0 <= i < skeleton_entries(md, dest, lock, mans).len() ==> ((
            #[trigger] skeleton_entries(md, dest, lock, mans)[i]).kind == EntryKind::SourceStub
                ==> skeleton_entries(md, dest, lock, mans)[i].content == Seq::<u8>::empty()),
{
    let root = md.workspace_root@;
    let members = member_packages(md);
    lemma_members_entries_stub_empty(members, root, dest, mans);
}

/// Placeholder entries of any member sequence are empty, valid or not.
proof fn lemma_members_entries_stub_empty(
    members: Seq<Package>,
    root: Seq<Seq<char>>,
    dest: Seq<Seq<char>>,
    mans: Seq<Seq<u8>>,
)
    ensures
        forall|i: int|
            0 <= i < members_entries(members, root, dest, mans).len() ==> ((
            #[trigger] members_entries(members, root, dest, mans)[i]).kind
                == EntryKind::SourceStub ==> members_entries(members, root, dest, mans)[i].content
                == Seq::<u8>::empty()),
    decreases members.len(),
{
    if members.len() > 0 {
        lemma_members_entries_stub_empty(members.drop_last(), root, dest, mans.drop_last());
        let p = members.last();
        let b = mans.last();
        assert forall|i: int|
            0 <= i < package_entries(p, root, dest, b).len() implies ((
        #[trigger] package_entries(p, root, dest, b)[i]).kind == EntryKind::SourceStub
            ==> package_entries(p, root, dest, b)[i].content == Seq::<u8>::empty()) by {
            if i > 0 {
                assert(package_entries(p, root, dest, b)[i] == stub_entries(p, root, dest)[i - 1]);
            }
        }
    }
}

/// Lockfile fidelity: the first entry of any skeleton is the lockfile, placed
/// directly under the destination root under its own name, holding exactly
/// the source lockfile's bytes.
pub proof fn lemma_lockfile_fidelity(
    md: WorkspaceMetadata,
    dest: Seq<Seq<char>>,
    lock: Seq<u8>,
    mans: Seq<Seq<u8>>,
)
    ensures
        skeleton_entries(md, dest, lock, mans).len() >= 1,
        skeleton_entries(md, dest, lock, mans)[0].kind == EntryKind::Lockfile,
        skeleton_entries(md, dest, lock, mans)[0].content == lock,
        skeleton_entries(md, dest, lock, mans)[0].path == dest.push(md.lockfile@.last()),
{
}

/// Membership filtering is exact: every package the filter keeps is a member
/// of the workspace, every member package of the list is kept, and the filter
/// never invents packages.
pub proof fn lemma_member_filter_sound(packages: Seq<Package>, members: Seq<Seq<char>>)
    ensures
        member_packages_of(packages, members).len() <= packages.len(),
        forall|i: int|
            0 <= i < member_packages_of(packages, members).len() ==> members.contains(
                #[trigger] member_packages_of(packages, members)[i].id@,
            ),
        forall|i: int|
            0 <= i < packages.len() && members.contains(#[trigger] packages[i].id@)
                ==> member_packages_of(packages, members).contains(packages[i]),
    decreases packages.len(),
{
    if packages.len() > 0 {
        lemma_member_filter_sound(packages.drop_last(), members);
        assert forall|i: int|
            0 <= i < packages.len() && members.contains(
                #[trigger] packages[i].id@,
            ) implies member_packages_of(packages, members).contains(packages[i]) by {
            if i < packages.len() - 1 {
                assert(packages.drop_last()[i] == packages[i]);
                let sub = member_packages_of(packages.drop_last(), members);
                let k = choose|k: int| 0 <= k < sub.len() && sub[k] == packages[i];
                assert(member_packages_of(packages, members)[k] == packages[i]);
            } else {
                let full = member_packages_of(packages, members);
                assert(full[full.len() - 1] == packages[i]);
            }
        }
    }
}

} // verus!
