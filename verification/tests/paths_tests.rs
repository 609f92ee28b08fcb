use cargo_prepare::paths::{rebase, WsPath};

fn p(segs: &[&str]) -> WsPath {
    WsPath::new(segs.iter().map(|s| s.to_string()).collect())
}

fn segs(path: &WsPath) -> Vec<String> {
    path.segments.clone()
}

#[test]
fn rebase_moves_descendant() {
    let path = p(&["ws", "a", "Cargo.toml"]);
    let from = p(&["ws"]);
    let to = p(&["tmp", "skel"]);
    let r = rebase(&path, &from, &to).unwrap();
    assert_eq!(segs(&r), vec!["tmp", "skel", "a", "Cargo.toml"]);
}

#[test]
fn rebase_keeps_equal_path() {
    let path = p(&["ws"]);
    let from = p(&["ws"]);
    let to = p(&["dest"]);
    let r = rebase(&path, &from, &to).unwrap();
    assert_eq!(segs(&r), vec!["dest"]);
}

#[test]
fn rebase_rejects_path_outside_base() {
    let path = p(&["other", "x.rs"]);
    let from = p(&["ws"]);
    let to = p(&["dest"]);
    let e = rebase(&path, &from, &to).err().unwrap();
    assert_eq!(segs(&e.path), vec!["other", "x.rs"]);
    assert_eq!(segs(&e.base), vec!["ws"]);
}

#[test]
fn rebase_rejects_base_longer_than_path() {
    let path = p(&["ws"]);
    let from = p(&["ws", "a"]);
    let to = p(&["dest"]);
    let e = rebase(&path, &from, &to).err().unwrap();
    assert_eq!(segs(&e.path), vec!["ws"]);
    assert_eq!(segs(&e.base), vec!["ws", "a"]);
}

#[test]
fn rebase_compares_whole_components() {
    // "wsx" is not under "ws": containment is per component, not per byte.
    let path = p(&["wsx", "a.rs"]);
    let from = p(&["ws"]);
    let to = p(&["dest"]);
    assert!(rebase(&path, &from, &to).is_err());
}

#[test]
fn starts_with_prefixes() {
    let path = p(&["ws", "a", "src", "main.rs"]);
    assert!(path.starts_with(&p(&["ws"])));
    assert!(path.starts_with(&p(&["ws", "a"])));
    assert!(path.starts_with(&p(&["ws", "a", "src", "main.rs"])));
    assert!(!path.starts_with(&p(&["ws", "b"])));
    assert!(!path.starts_with(&p(&["ws", "a", "src", "main.rs", "x"])));
}

#[test]
fn parent_and_child_move_one_component() {
    let path = p(&["ws", "a", "Cargo.toml"]);
    assert_eq!(segs(&path.parent()), vec!["ws", "a"]);
    let name = "Cargo.lock".to_string();
    assert_eq!(segs(&path.parent().child(&name)), vec!["ws", "a", "Cargo.lock"]);
    assert_eq!(path.last_segment().as_str(), "Cargo.toml");
}
