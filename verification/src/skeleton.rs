//! The skeleton materializer.
//!
//! `materialize` turns a workspace metadata snapshot and the bytes of the
//! real lockfile and member manifests into the complete list of files the
//! skeleton workspace must contain: the lockfile under the destination root,
//! each member manifest re-rooted from the workspace root to the
//! destination, and one zero-length placeholder per build target, re-rooted
//! from the package's manifest directory to the destination package
//! directory. Entries come in processing order: the lockfile first, then
//! each member package's manifest followed by its target placeholders.
//!
//! Validation is fail-fast: the first manifest path that is not strictly
//! under the workspace root, or the first target source path that is not
//! strictly under its package's manifest directory, aborts the remaining
//! work, and the reported error names that path and the base it was expected
//! to lie under. On failure no entry list is produced at all, so a caller
//! writes nothing for malformed metadata.

use crate::metadata::{
    lemma_member_packages_of_take_step, member_ids, member_packages, member_packages_of,
    id_is_member, Package, Target, WorkspaceMetadata,
};
use crate::paths::{rebase, rebased, strictly_under, PathNotUnderBaseError, WsPath};
use vstd::prelude::*;

verus! {

/// What a skeleton file is for: the workspace lockfile, a member package's
/// manifest, or a zero-length placeholder standing in for a target's source
/// entry point.
#[derive(Clone, Copy, PartialEq, Eq, Debug)]
pub enum EntryKind {
    Lockfile,
    Manifest,
    SourceStub,
}

/// One file of the skeleton: where it goes and the exact bytes it holds.
pub struct SkeletonEntry {
    pub kind: EntryKind,
    pub path: WsPath,
    pub content: Vec<u8>,
}

/// The mathematical model of a skeleton entry.
#[verifier::ext_equal]
pub struct EntryModel {
    pub kind: EntryKind,
    pub path: Seq<Seq<char>>,
    pub content: Seq<u8>,
}

impl View for SkeletonEntry {
    type V = EntryModel;

    open spec fn view(&self) -> EntryModel {
        EntryModel { kind: self.kind, path: self.path@, content: self.content@ }
    }
}

impl DeepView for SkeletonEntry {
    type V = EntryModel;

    open spec fn deep_view(&self) -> EntryModel {
        self.view()
    }
}

/// The complete skeleton: every file the destination must contain, in
/// processing order, and nothing else.
pub struct Skeleton {
    pub entries: Vec<SkeletonEntry>,
}

impl View for Skeleton {
    type V = Seq<EntryModel>;

    open spec fn view(&self) -> Seq<EntryModel> {
        self.entries.deep_view()
    }
}

/// A path together with the base it failed to lie under.
#[verifier::ext_equal]
pub struct Violation {
    pub path: Seq<Seq<char>>,
    pub base: Seq<Seq<char>>,
}

pub open spec fn mk_violation(path: Seq<Seq<char>>, base: Seq<Seq<char>>) -> Violation {
    Violation { path, base }
}

/// The directory holding a package's manifest.
pub open spec fn package_dir(p: Package) -> Seq<Seq<char>> {
    p.manifest_path@.drop_last()
}

/// Where the package's manifest goes in the skeleton.
pub open spec fn dest_manifest_path(
    p: Package,
    root: Seq<Seq<char>>,
    dest: Seq<Seq<char>>,
) -> Seq<Seq<char>> {
    rebased(p.manifest_path@, root, dest)
}

/// The skeleton directory of the package: the parent of its re-rooted
/// manifest.
pub open spec fn dest_package_dir(
    p: Package,
    root: Seq<Seq<char>>,
    dest: Seq<Seq<char>>,
) -> Seq<Seq<char>> {
    dest_manifest_path(p, root, dest).drop_last()
}

/// The lockfile's entry: its file name under the destination root, holding
/// exactly the source lockfile's bytes.
pub open spec fn lockfile_entry(
    lockfile: Seq<Seq<char>>,
    dest: Seq<Seq<char>>,
    bytes: Seq<u8>,
) -> EntryModel {
    EntryModel { kind: EntryKind::Lockfile, path: dest.push(lockfile.last()), content: bytes }
}

/// A member manifest's entry: the manifest re-rooted to the destination,
/// holding exactly the source manifest's bytes.
pub open spec fn manifest_entry(
    p: Package,
    root: Seq<Seq<char>>,
    dest: Seq<Seq<char>>,
    bytes: Seq<u8>,
) -> EntryModel {
    EntryModel { kind: EntryKind::Manifest, path: dest_manifest_path(p, root, dest), content: bytes }
}

/// A target's entry: its source path re-rooted from the package directory to
/// the destination package directory, with empty content. The real source
/// file's bytes play no part.
pub open spec fn stub_entry(
    t: Target,
    pkg_dir: Seq<Seq<char>>,
    dest_pkg_dir: Seq<Seq<char>>,
) -> EntryModel {
    EntryModel {
        kind: EntryKind::SourceStub,
        path: rebased(t.src_path@, pkg_dir, dest_pkg_dir),
        content: Seq::<u8>::empty(),
    }
}

/// The placeholder entries of one package, one per target, in target order.
pub open spec fn stub_entries(
    p: Package,
    root: Seq<Seq<char>>,
    dest: Seq<Seq<char>>,
) -> Seq<EntryModel> {
    Seq::new(
        p.targets@.len(),
        |i: int| stub_entry(p.targets@[i], package_dir(p), dest_package_dir(p, root, dest)),
    )
}

/// All entries of one member package: its manifest, then its placeholders.
pub open spec fn package_entries(
    p: Package,
    root: Seq<Seq<char>>,
    dest: Seq<Seq<char>>,
    manifest_bytes: Seq<u8>,
) -> Seq<EntryModel> {
    seq![manifest_entry(p, root, dest, manifest_bytes)] + stub_entries(p, root, dest)
}

/// The entries of a sequence of member packages, in order, each paired with
/// its manifest's bytes.
pub open spec fn members_entries(
    members: Seq<Package>,
    root: Seq<Seq<char>>,
    dest: Seq<Seq<char>>,
    manifests: Seq<Seq<u8>>,
) -> Seq<EntryModel>
    decreases members.len(),
{
    if members.len() == 0 {
        Seq::<EntryModel>::empty()
    } else {
        members_entries(members.drop_last(), root, dest, manifests.drop_last())
            + package_entries(members.last(), root, dest, manifests.last())
    }
}

/// The complete expected skeleton of a snapshot: the lockfile entry, then
/// the member packages' entries in order.
pub open spec fn skeleton_entries(
    md: WorkspaceMetadata,
    dest: Seq<Seq<char>>,
    lockfile_bytes: Seq<u8>,
    manifests: Seq<Seq<u8>>,
) -> Seq<EntryModel> {
    seq![lockfile_entry(md.lockfile@, dest, lockfile_bytes)] + members_entries(
        member_packages(md),
        md.workspace_root@,
        dest,
        manifests,
    )
}

/// The first target source path of `ts`, in order, that is not strictly
/// under the package directory, if any.
pub open spec fn targets_violation(ts: Seq<Target>, pkg_dir: Seq<Seq<char>>) -> Option<
    Seq<Seq<char>>,
>
    decreases ts.len(),
{
    if ts.len() == 0 {
        None::<Seq<Seq<char>>>
    } else if targets_violation(ts.drop_last(), pkg_dir) is Some {
        targets_violation(ts.drop_last(), pkg_dir)
    } else if !strictly_under(ts.last().src_path@, pkg_dir) {
        Some(ts.last().src_path@)
    } else {
        None::<Seq<Seq<char>>>
    }
}

/// The first path violation of one package, in processing order: its
/// manifest not strictly under the workspace root, else its first target
/// source not strictly under the manifest directory.
pub open spec fn package_violation(p: Package, root: Seq<Seq<char>>) -> Option<Violation> {
    if !strictly_under(p.manifest_path@, root) {
        Some(mk_violation(p.manifest_path@, root))
    } else {
        match targets_violation(p.targets@, package_dir(p)) {
            Some(src) => Some(mk_violation(src, package_dir(p))),
            None => None::<Violation>,
        }
    }
}

/// The first path violation over a sequence of member packages, in order.
pub open spec fn members_violation(members: Seq<Package>, root: Seq<Seq<char>>) -> Option<
    Violation,
>
    decreases members.len(),
{
    if members.len() == 0 {
        None::<Violation>
    } else if members_violation(members.drop_last(), root) is Some {
        members_violation(members.drop_last(), root)
    } else {
        package_violation(members.last(), root)
    }
}

/// All member manifest and target paths of the snapshot lie strictly under
/// their expected bases.
pub open spec fn paths_ok(md: WorkspaceMetadata) -> bool {
    members_violation(member_packages(md), md.workspace_root@) is None
}

/// A violation found in a prefix of the targets is the violation of the
/// whole: later targets cannot change the first violation.
pub proof fn lemma_targets_violation_extend(ts: Seq<Target>, pkg_dir: Seq<Seq<char>>, k: int)
    requires
        0 <= k <= ts.len(),
        targets_violation(ts.take(k), pkg_dir) is Some,
    ensures
        targets_violation(ts, pkg_dir) == targets_violation(ts.take(k), pkg_dir),
    decreases ts.len() - k,
{
    if k < ts.len() {
        assert(ts.take(k + 1).drop_last() =~= ts.take(k));
        assert(ts.take(k + 1).last() == ts[k]);
        lemma_targets_violation_extend(ts, pkg_dir, k + 1);
    } else {
        assert(ts.take(k) =~= ts);
    }
}

/// A violation found among the first member packages is the violation of the
/// whole sequence.
pub proof fn lemma_members_violation_extend(members: Seq<Package>, root: Seq<Seq<char>>, k: int)
    requires
        0 <= k <= members.len(),
        members_violation(members.take(k), root) is Some,
    ensures
        members_violation(members, root) == members_violation(members.take(k), root),
    decreases members.len() - k,
{
    if k < members.len() {
        assert(members.take(k + 1).drop_last() =~= members.take(k));
        assert(members.take(k + 1).last() == members[k]);
        lemma_members_violation_extend(members, root, k + 1);
    } else {
        assert(members.take(k) =~= members);
    }
}

/// The member packages of a prefix of the package list form a prefix of the
/// member packages of the whole list.
pub proof fn lemma_member_packages_of_prefix(
    packages: Seq<Package>,
    members: Seq<Seq<char>>,
    j: int,
)
    requires
        0 <= j <= packages.len(),
    ensures
        member_packages_of(packages.take(j), members).len() <= member_packages_of(
            packages,
            members,
        ).len(),
        member_packages_of(packages, members).take(
            member_packages_of(packages.take(j), members).len() as int,
        ) == member_packages_of(packages.take(j), members),
    decreases packages.len() - j,
{
    if j < packages.len() {
        lemma_member_packages_of_take_step(packages, members, j);
        lemma_member_packages_of_prefix(packages, members, j + 1);
        let short = member_packages_of(packages.take(j), members);
        let longer = member_packages_of(packages.take(j + 1), members);
        let full = member_packages_of(packages, members);
        assert(longer.take(short.len() as int) =~= short);
        assert(full.take(short.len() as int) =~= full.take(longer.len() as int).take(
            short.len() as int,
        ));
    } else {
        assert(packages.take(j) =~= packages);
    }
}

/// A fresh copy of a byte vector.
fn copy_bytes(v: &Vec<u8>) -> (r: Vec<u8>)
    ensures
        r@ == v@,
{
    let n = v.len();
    let mut r: Vec<u8> = Vec::new();
    let mut i: usize = 0;
    while i < n
        invariant
            i <= n,
            n == v.len(),
            r@ =~= v@.take(i as int),
        decreases n - i,
    {
        r.push(v[i]);
        i += 1;
    }
    proof {
        assert(v@.take(n as int) =~= v@);
    }
    r
}

/// Compute the skeleton of the workspace described by `md`, rooted at
/// `destination`.
///
/// `lockfile_bytes` are the bytes of the real lockfile, and `manifest_bytes`
/// the bytes of each member package's manifest, in the order
/// `member_manifest_sources` reports the member packages. On success the
/// result lists every file of the skeleton, in processing order, with its
/// exact content: the lockfile copied verbatim under the destination root,
/// each member manifest copied verbatim to its re-rooted path, and one empty
/// placeholder per target. Packages outside the membership set contribute
/// nothing.
///
/// The call fails, producing no skeleton, exactly when some member manifest
/// path is not strictly under the workspace root or some target source path
/// is not strictly under its package's manifest directory; the error names
/// the first such path, in processing order, and its expected base.
pub fn materialize(
    md: &WorkspaceMetadata,
    destination: &WsPath,
    lockfile_bytes: &Vec<u8>,
    manifest_bytes: &Vec<Vec<u8>>,
) -> (r: Result<Skeleton, PathNotUnderBaseError>)
    requires
        md.lockfile@.len() > 0,
        manifest_bytes@.len() == member_packages(*md).len(),
    ensures
        match r {
            Ok(s) => paths_ok(*md) && s@ == skeleton_entries(
                *md,
                destination@,
                lockfile_bytes@,
                manifest_bytes.deep_view(),
            ) && s@.len() >= 1 && s@[0].content == lockfile_bytes@,
            Err(e) => members_violation(member_packages(*md), md.workspace_root@) == Some(
                mk_violation(e.path@, e.base@),
            ),
        },
{
    let ghost ids = member_ids(*md);
    let ghost root_v = md.workspace_root@;
    let ghost dest_v = destination@;
    let ghost bytes_v = manifest_bytes.deep_view();
    let ghost full_members = member_packages(*md);

    let mut entries: Vec<SkeletonEntry> = Vec::new();
    let lock_dest = destination.child(md.lockfile.last_segment());
    entries.push(
        SkeletonEntry {
            kind: EntryKind::Lockfile,
            path: lock_dest,
            content: copy_bytes(lockfile_bytes),
        },
    );
    proof {
        assert(entries.deep_view() =~= seq![
            lockfile_entry(md.lockfile@, dest_v, lockfile_bytes@),
        ]);
    }

    let n = md.packages.len();
    let mut pi: usize = 0;
    let mut mi: usize = 0;
    while pi < n
        invariant
            pi <= n,
            n == md.packages.len(),
            md.lockfile@.len() > 0,
            ids == member_ids(*md),
            root_v == md.workspace_root@,
            dest_v == destination@,
            bytes_v == manifest_bytes.deep_view(),
            bytes_v.len() == member_packages(*md).len(),
            full_members == member_packages(*md),
            mi == member_packages_of(md.packages@.take(pi as int), ids).len(),
            members_violation(member_packages_of(md.packages@.take(pi as int), ids), root_v)
                is None,
            entries.deep_view() == seq![
                lockfile_entry(md.lockfile@, dest_v, lockfile_bytes@),
            ] + members_entries(
                member_packages_of(md.packages@.take(pi as int), ids),
                root_v,
                dest_v,
                bytes_v.take(mi as int),
            ),
        decreases n - pi,
    {
        let ghost pre_members = member_packages_of(md.packages@.take(pi as int), ids);
        proof {
            lemma_member_packages_of_take_step(md.packages@, ids, pi as int);
            lemma_member_packages_of_prefix(md.packages@, ids, pi as int);
            lemma_member_packages_of_prefix(md.packages@, ids, pi as int + 1);
        }
        let p = &md.packages[pi];
        let ghost pkg = md.packages@[pi as int];
        if id_is_member(&md.members, &p.id) {
            proof {
                assert(member_packages_of(md.packages@.take(pi as int + 1), ids) =~= pre_members
                    .push(pkg));
                assert(full_members.take(mi as int) == pre_members);
                assert(full_members.take(mi as int + 1) == pre_members.push(pkg));
                assert(mi < full_members.len());
            }
            let rel = match rebase(&p.manifest_path, &md.workspace_root, destination) {
                Ok(rel) => rel,
                Err(e) => {
                    proof {
                        assert(!strictly_under(pkg.manifest_path@, root_v));
                        assert(members_violation(pre_members.push(pkg), root_v) == Some(
                            mk_violation(pkg.manifest_path@, root_v),
                        )) by {
                            assert(pre_members.push(pkg).drop_last() =~= pre_members);
                        }
                        lemma_members_violation_extend(full_members, root_v, mi as int + 1);
                    }
                    return Err(e);
                },
            };
            if rel.len() == destination.len() {
                proof {
                    assert(!strictly_under(pkg.manifest_path@, root_v));
                    assert(members_violation(pre_members.push(pkg), root_v) == Some(
                        mk_violation(pkg.manifest_path@, root_v),
                    )) by {
                        assert(pre_members.push(pkg).drop_last() =~= pre_members);
                    }
                    lemma_members_violation_extend(full_members, root_v, mi as int + 1);
                }
                return Err(
                    PathNotUnderBaseError {
                        path: p.manifest_path.duplicate(),
                        base: md.workspace_root.duplicate(),
                    },
                );
            }
            proof {
                assert(strictly_under(pkg.manifest_path@, root_v));
            }
            let pkg_dir = p.manifest_path.parent();
            let dest_pkg_dir = rel.parent();
            proof {
                assert(pkg_dir@ == package_dir(pkg));
                assert(dest_pkg_dir@ == dest_package_dir(pkg, root_v, dest_v));
            }
            let ghost before_manifest = entries.deep_view();
            entries.push(
                SkeletonEntry {
                    kind: EntryKind::Manifest,
                    path: rel,
                    content: copy_bytes(&manifest_bytes[mi]),
                },
            );
            let ghost after_manifest = entries.deep_view();
            proof {
                assert(after_manifest =~~= before_manifest.push(
                    manifest_entry(pkg, root_v, dest_v, bytes_v[mi as int]),
                ));
            }
            let tn = p.targets.len();
            let mut ti: usize = 0;
            while ti < tn
                invariant
                    ti <= tn,
                    pi < n,
                    n == md.packages.len(),
                    mi < manifest_bytes.len(),
                    mi < bytes_v.len(),
                    mi as int + 1 <= full_members.len(),
                    tn == p.targets.len(),
                    pkg == md.packages@[pi as int],
                    p == &md.packages[pi as int],
                    pkg_dir@ == package_dir(pkg),
                    dest_pkg_dir@ == dest_package_dir(pkg, root_v, dest_v),
                    root_v == md.workspace_root@,
                    dest_v == destination@,
                    bytes_v == manifest_bytes.deep_view(),
                    full_members == member_packages(*md),
                    pre_members == member_packages_of(md.packages@.take(pi as int), ids),
                    members_violation(pre_members, root_v) is None,
                    full_members.take(mi as int + 1) == pre_members.push(pkg),
                    strictly_under(pkg.manifest_path@, root_v),
                    targets_violation(pkg.targets@.take(ti as int), pkg_dir@) is None,
                    entries.deep_view() == after_manifest + stub_entries(pkg, root_v, dest_v).take(
                        ti as int,
                    ),
                    after_manifest == before_manifest.push(
                        manifest_entry(pkg, root_v, dest_v, bytes_v[mi as int]),
                    ),
                decreases tn - ti,
            {
                let t = &p.targets[ti];
                let ghost tgt = pkg.targets@[ti as int];
                let stub = match rebase(&t.src_path, &pkg_dir, &dest_pkg_dir) {
                    Ok(stub) => stub,
                    Err(e) => {
                        proof {
                            lemma_first_target_violation(pkg, root_v, ti as int);
                            assert(members_violation(pre_members.push(pkg), root_v) == Some(
                                mk_violation(tgt.src_path@, pkg_dir@),
                            )) by {
                                assert(pre_members.push(pkg).drop_last() =~= pre_members);
                            }
                            lemma_members_violation_extend(full_members, root_v, mi as int + 1);
                        }
                        return Err(e);
                    },
                };
                if stub.len() == dest_pkg_dir.len() {
                    proof {
                        assert(!strictly_under(tgt.src_path@, pkg_dir@));
                        lemma_first_target_violation(pkg, root_v, ti as int);
                        assert(members_violation(pre_members.push(pkg), root_v) == Some(
                            mk_violation(tgt.src_path@, pkg_dir@),
                        )) by {
                            assert(pre_members.push(pkg).drop_last() =~= pre_members);
                        }
                        lemma_members_violation_extend(full_members, root_v, mi as int + 1);
                    }
                    return Err(
                        PathNotUnderBaseError {
                            path: t.src_path.duplicate(),
                            base: pkg_dir,
                        },
                    );
                }
                proof {
                    assert(strictly_under(tgt.src_path@, pkg_dir@));
                    assert(targets_violation(pkg.targets@.take(ti as int + 1), pkg_dir@)
                        is None) by {
                        assert(pkg.targets@.take(ti as int + 1).drop_last() =~= pkg.targets@.take(
                            ti as int,
                        ));
                    }
                }
                let ghost before_stub = entries.deep_view();
                entries.push(
                    SkeletonEntry { kind: EntryKind::SourceStub, path: stub, content: Vec::new() },
                );
                proof {
                    assert(entries.deep_view() =~~= before_stub.push(
                        stub_entry(tgt, pkg_dir@, dest_pkg_dir@),
                    ));
                    assert(entries.deep_view() =~~= after_manifest + stub_entries(
                        pkg,
                        root_v,
                        dest_v,
                    ).take(ti as int + 1));
                }
                ti += 1;
            }
            proof {
                assert(pkg.targets@.take(tn as int) =~= pkg.targets@);
                assert(package_violation(pkg, root_v) is None);
                assert(members_violation(pre_members.push(pkg), root_v) is None) by {
                    assert(pre_members.push(pkg).drop_last() =~= pre_members);
                }
                assert(stub_entries(pkg, root_v, dest_v).take(tn as int) =~= stub_entries(
                    pkg,
                    root_v,
                    dest_v,
                ));
                assert(bytes_v.take(mi as int + 1).drop_last() =~= bytes_v.take(mi as int));
                assert(members_entries(
                    pre_members.push(pkg),
                    root_v,
                    dest_v,
                    bytes_v.take(mi as int + 1),
                ) == members_entries(pre_members, root_v, dest_v, bytes_v.take(mi as int))
                    + package_entries(pkg, root_v, dest_v, bytes_v[mi as int])) by {
                    assert(pre_members.push(pkg).drop_last() =~= pre_members);
                    assert(bytes_v.take(mi as int + 1).last() == bytes_v[mi as int]);
                }
                assert(entries.deep_view() =~= seq![
                    lockfile_entry(md.lockfile@, dest_v, lockfile_bytes@),
                ] + members_entries(
                    pre_members.push(pkg),
                    root_v,
                    dest_v,
                    bytes_v.take(mi as int + 1),
                ));
            }
            mi += 1;
        } else {
            proof {
                assert(member_packages_of(md.packages@.take(pi as int + 1), ids) == pre_members);
            }
        }
        pi += 1;
    }
    proof {
        assert(md.packages@.take(n as int) =~= md.packages@);
        assert(bytes_v.take(mi as int) =~= bytes_v);
    }
    Ok(Skeleton { entries })
}

/// If the first `i` targets of a valid-manifest package are in order and
/// target `i` is not strictly under the package directory, then target `i`'s
/// source path is the package's first violation.
proof fn lemma_first_target_violation(pkg: Package, root: Seq<Seq<char>>, i: int)
    requires
        0 <= i < pkg.targets@.len(),
        strictly_under(pkg.manifest_path@, root),
        targets_violation(pkg.targets@.take(i), package_dir(pkg)) is None,
        !strictly_under(pkg.targets@[i].src_path@, package_dir(pkg)),
    ensures
        package_violation(pkg, root) == Some(
            mk_violation(pkg.targets@[i].src_path@, package_dir(pkg)),
        ),
{
    let ts = pkg.targets@;
    let pd = package_dir(pkg);
    assert(ts.take(i + 1).drop_last() =~= ts.take(i));
    assert(ts.take(i + 1).last() == ts[i]);
    assert(targets_violation(ts.take(i + 1), pd) == Some(ts[i].src_path@));
    lemma_targets_violation_extend(ts, pd, i + 1);
}

} // verus!
