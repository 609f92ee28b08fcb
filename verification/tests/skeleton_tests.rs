use cargo_prepare::metadata::{member_manifest_sources, Package, Target, WorkspaceMetadata};
use cargo_prepare::paths::WsPath;
use cargo_prepare::skeleton::{materialize, EntryKind, Skeleton};

fn p(segs: &[&str]) -> WsPath {
    WsPath::new(segs.iter().map(|s| s.to_string()).collect())
}

fn target(segs: &[&str]) -> Target {
    Target { src_path: p(segs) }
}

fn package(id: &str, manifest: &[&str], targets: Vec<Target>) -> Package {
    Package { id: id.to_string(), manifest_path: p(manifest), targets }
}

/// The workspace of the end-to-end scenario: root `/ws`, lockfile
/// `/ws/Cargo.lock`, members `a` and `b`, and one non-member package.
fn sample_metadata() -> WorkspaceMetadata {
    WorkspaceMetadata {
        workspace_root: p(&["ws"]),
        lockfile: p(&["ws", "Cargo.lock"]),
        output_dir: p(&["ws", "target"]),
        members: vec!["a".to_string(), "b".to_string()],
        packages: vec![
            package(
                "a",
                &["ws", "a", "Cargo.toml"],
                vec![target(&["ws", "a", "src", "main.rs"]), target(&["ws", "a", "src", "lib.rs"])],
            ),
            package("dep", &["reg", "dep", "Cargo.toml"], vec![target(&["reg", "dep", "lib.rs"])]),
            package("b", &["ws", "b", "Cargo.toml"], vec![target(&["ws", "b", "src", "lib.rs"])]),
        ],
    }
}

fn entry_of<'a>(s: &'a Skeleton, segs: &[&str]) -> &'a cargo_prepare::skeleton::SkeletonEntry {
    let want: Vec<String> = segs.iter().map(|x| x.to_string()).collect();
    s.entries
        .iter()
        .find(|e| e.path.segments == want)
        .unwrap_or_else(|| panic!("no entry at {:?}", want))
}

#[test]
fn end_to_end_scenario() {
    let md = sample_metadata();
    let dest = p(&["tmp", "skel"]);
    let lock = b"L".to_vec();
    let manifests = vec![b"manifest of a".to_vec(), b"manifest of b".to_vec()];
    let skel = materialize(&md, &dest, &lock, &manifests).unwrap();

    // Exactly the six expected files, nothing else.
    assert_eq!(skel.entries.len(), 6);
    let e = entry_of(&skel, &["tmp", "skel", "Cargo.lock"]);
    assert_eq!(e.kind, EntryKind::Lockfile);
    assert_eq!(e.content, b"L".to_vec());
    let e = entry_of(&skel, &["tmp", "skel", "a", "Cargo.toml"]);
    assert_eq!(e.kind, EntryKind::Manifest);
    assert_eq!(e.content, b"manifest of a".to_vec());
    let e = entry_of(&skel, &["tmp", "skel", "a", "src", "main.rs"]);
    assert_eq!(e.kind, EntryKind::SourceStub);
    assert!(e.content.is_empty());
    let e = entry_of(&skel, &["tmp", "skel", "a", "src", "lib.rs"]);
    assert!(e.content.is_empty());
    let e = entry_of(&skel, &["tmp", "skel", "b", "Cargo.toml"]);
    assert_eq!(e.kind, EntryKind::Manifest);
    assert_eq!(e.content, b"manifest of b".to_vec());
    let e = entry_of(&skel, &["tmp", "skel", "b", "src", "lib.rs"]);
    assert_eq!(e.kind, EntryKind::SourceStub);
    assert!(e.content.is_empty());
}

#[test]
fn entries_come_in_processing_order() {
    let md = sample_metadata();
    let skel = materialize(
        &md,
        &p(&["d"]),
        &b"L".to_vec(),
        &vec![b"A".to_vec(), b"B".to_vec()],
    )
    .unwrap();
    let kinds: Vec<EntryKind> = skel.entries.iter().map(|e| e.kind).collect();
    assert_eq!(
        kinds,
        vec![
            EntryKind::Lockfile,
            EntryKind::Manifest,
            EntryKind::SourceStub,
            EntryKind::SourceStub,
            EntryKind::Manifest,
            EntryKind::SourceStub,
        ]
    );
}

#[test]
fn non_member_packages_contribute_nothing() {
    let md = sample_metadata();
    let skel = materialize(
        &md,
        &p(&["d"]),
        &b"L".to_vec(),
        &vec![b"A".to_vec(), b"B".to_vec()],
    )
    .unwrap();
    for e in &skel.entries {
        assert!(!e.path.segments.contains(&"reg".to_string()));
        assert!(!e.path.segments.contains(&"dep".to_string()));
    }
}

#[test]
fn member_manifest_sources_lists_members_in_order() {
    let md = sample_metadata();
    let sources = member_manifest_sources(&md);
    assert_eq!(sources.len(), 2);
    assert_eq!(sources[0].segments, vec!["ws", "a", "Cargo.toml"]);
    assert_eq!(sources[1].segments, vec!["ws", "b", "Cargo.toml"]);
}

#[test]
fn lockfile_copied_byte_identical() {
    let mut md = sample_metadata();
    md.members = vec![];
    // Binary-unsafe-looking bytes survive untouched.
    let lock = vec![0u8, 255, 13, 10, 0, 34, 92, 7];
    let skel = materialize(&md, &p(&["out"]), &lock, &vec![]).unwrap();
    assert_eq!(skel.entries.len(), 1);
    assert_eq!(skel.entries[0].kind, EntryKind::Lockfile);
    assert_eq!(skel.entries[0].path.segments, vec!["out", "Cargo.lock"]);
    assert_eq!(skel.entries[0].content, lock);
}

#[test]
fn lockfile_keeps_its_own_name() {
    let mut md = sample_metadata();
    md.members = vec![];
    md.lockfile = p(&["ws", "deps.lock"]);
    let skel = materialize(&md, &p(&["out"]), &b"pinned".to_vec(), &vec![]).unwrap();
    assert_eq!(skel.entries[0].path.segments, vec!["out", "deps.lock"]);
}

#[test]
fn stubs_are_empty_for_every_target() {
    let md = sample_metadata();
    let skel = materialize(
        &md,
        &p(&["d"]),
        &b"L".to_vec(),
        &vec![b"A".to_vec(), b"B".to_vec()],
    )
    .unwrap();
    for e in &skel.entries {
        if e.kind == EntryKind::SourceStub {
            assert_eq!(e.content.len(), 0);
        }
    }
}

#[test]
fn identical_shape_for_two_destinations() {
    let md = sample_metadata();
    let lock = b"L".to_vec();
    let manifests = vec![b"A".to_vec(), b"B".to_vec()];
    let d1 = p(&["tmp", "one"]);
    let d2 = p(&["elsewhere"]);
    let s1 = materialize(&md, &d1, &lock, &manifests).unwrap();
    let s2 = materialize(&md, &d2, &lock, &manifests).unwrap();
    assert_eq!(s1.entries.len(), s2.entries.len());
    for (e1, e2) in s1.entries.iter().zip(s2.entries.iter()) {
        assert_eq!(e1.kind, e2.kind);
        assert_eq!(e1.content, e2.content);
        assert_eq!(e1.path.segments[2..], e2.path.segments[1..]);
    }
}

#[test]
fn fails_on_manifest_outside_root() {
    let mut md = sample_metadata();
    md.packages[2] = package("b", &["elsewhere", "b", "Cargo.toml"], vec![]);
    let e = materialize(
        &md,
        &p(&["d"]),
        &b"L".to_vec(),
        &vec![b"A".to_vec(), b"B".to_vec()],
    )
    .err()
    .unwrap();
    assert_eq!(e.path.segments, vec!["elsewhere", "b", "Cargo.toml"]);
    assert_eq!(e.base.segments, vec!["ws"]);
}

#[test]
fn fails_on_manifest_equal_to_root() {
    let mut md = sample_metadata();
    md.packages[0] = package("a", &["ws"], vec![]);
    let e = materialize(
        &md,
        &p(&["d"]),
        &b"L".to_vec(),
        &vec![b"A".to_vec(), b"B".to_vec()],
    )
    .err()
    .unwrap();
    assert_eq!(e.path.segments, vec!["ws"]);
    assert_eq!(e.base.segments, vec!["ws"]);
}

#[test]
fn fails_on_target_outside_package_dir() {
    let mut md = sample_metadata();
    md.packages[0] = package(
        "a",
        &["ws", "a", "Cargo.toml"],
        vec![target(&["ws", "a", "src", "main.rs"]), target(&["ws", "zzz.rs"])],
    );
    let e = materialize(
        &md,
        &p(&["d"]),
        &b"L".to_vec(),
        &vec![b"A".to_vec(), b"B".to_vec()],
    )
    .err()
    .unwrap();
    assert_eq!(e.path.segments, vec!["ws", "zzz.rs"]);
    assert_eq!(e.base.segments, vec!["ws", "a"]);
}

#[test]
fn reports_first_violation_in_order() {
    // Both members are bad; the error names the first one processed.
    let mut md = sample_metadata();
    md.packages[0] = package("a", &["away", "Cargo.toml"], vec![]);
    md.packages[2] = package("b", &["far", "Cargo.toml"], vec![]);
    let e = materialize(
        &md,
        &p(&["d"]),
        &b"L".to_vec(),
        &vec![b"A".to_vec(), b"B".to_vec()],
    )
    .err()
    .unwrap();
    assert_eq!(e.path.segments, vec!["away", "Cargo.toml"]);
}

#[test]
fn empty_membership_keeps_only_the_lockfile() {
    let mut md = sample_metadata();
    md.members = vec![];
    let skel = materialize(&md, &p(&["d"]), &b"L".to_vec(), &vec![]).unwrap();
    assert_eq!(skel.entries.len(), 1);
    assert_eq!(skel.entries[0].kind, EntryKind::Lockfile);
}
