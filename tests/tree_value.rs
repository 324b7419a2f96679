use treedb::digest::Digest;
use treedb::names::compare_bytes;
use treedb::tree::{NodeType, Tree};

fn blob_id(b: &[u8]) -> Digest {
    Digest::of_blob(b)
}

const FILE: NodeType = NodeType::Blob { executable: false };
const EXEC: NodeType = NodeType::Blob { executable: true };

fn expected_frame(children: &[(&str, Digest, NodeType)]) -> Vec<u8> {
    let mut f = Vec::new();
    for (name, id, kind) in children {
        f.extend_from_slice(&id.bytes);
        f.extend_from_slice(match kind {
            NodeType::Blob { executable: false } => &[0u8, 0u8],
            NodeType::Blob { executable: true } => &[0u8, 1u8],
            NodeType::Tree => &[1u8, 0u8],
        });
        f.extend_from_slice(name.as_bytes());
        f.push(0);
    }
    f
}

#[test]
fn empty_tree_has_no_children() {
    let t = Tree::new();
    assert_eq!(t.len(), 0);
    assert!(t.iter().is_empty());
    assert!(t.frame().is_empty());
}

#[test]
fn children_iterate_in_byte_order() {
    let foo = blob_id(b"foo");
    let mut t = Tree::new();
    t.add_child("b", &foo, FILE);
    t.add_child("a", &foo, FILE);
    t.add_child("B", &foo, EXEC);
    t.add_child("ab", &foo, NodeType::Tree);
    let names: Vec<String> = t.iter().into_iter().map(|c| c.name).collect();
    assert_eq!(names, vec!["B", "a", "ab", "b"]);
    assert_eq!(t.len(), 4);
}

#[test]
fn add_child_replaces_same_name() {
    let foo = blob_id(b"foo");
    let bar = blob_id(b"bar");
    let mut t = Tree::new();
    t.add_child("x", &foo, FILE);
    t.add_child("x", &bar, EXEC);
    assert_eq!(t.len(), 1);
    let c = t.get_child("x").unwrap();
    assert_eq!(c.id, bar);
    assert_eq!(c.node_type, EXEC);
    assert!(t.get_child("y").is_none());
}

#[test]
fn digest_matches_framing() {
    let foo = blob_id(b"foo");
    let c_id = blob_id(b"c");
    let mut t = Tree::new();
    t.add_child("b", &foo, EXEC);
    t.add_child("a", &foo, FILE);
    t.add_child("c", &c_id, NodeType::Tree);
    let frame = expected_frame(&[("a", foo, FILE), ("b", foo, EXEC), ("c", c_id, NodeType::Tree)]);
    assert_eq!(t.frame(), frame);
    assert_eq!(t.id().bytes, blake3::derive_key("tree_id", &frame));
    assert_ne!(t.id().bytes, *blake3::hash(&frame).as_bytes());
}

#[test]
fn digest_is_deterministic() {
    let foo = blob_id(b"foo");
    let mut t = Tree::new();
    t.add_child("a", &foo, FILE);
    assert_eq!(t.id(), t.id());
    assert_eq!(t.clone().id(), t.id());
}

#[test]
fn digest_ignores_insertion_order() {
    let foo = blob_id(b"foo");
    let bar = blob_id(b"bar");
    let mut c = Tree::new();
    c.add_child("d", &bar, FILE);
    let c_id = c.id();
    let mut r1 = Tree::new();
    r1.add_child("a", &foo, FILE);
    r1.add_child("b", &foo, FILE);
    r1.add_child("c", &c_id, NodeType::Tree);
    let mut r2 = Tree::new();
    r2.add_child("c", &c_id, NodeType::Tree);
    r2.add_child("b", &foo, FILE);
    r2.add_child("a", &foo, FILE);
    assert_eq!(r1, r2);
    assert_eq!(r1.id(), r2.id());
}

#[test]
fn executable_bit_changes_digest() {
    let foo = blob_id(b"foo");
    let mut t1 = Tree::new();
    t1.add_child("f", &foo, FILE);
    let mut t2 = Tree::new();
    t2.add_child("f", &foo, EXEC);
    assert_ne!(t1.id(), t2.id());
}

#[test]
fn name_and_child_digest_change_digest() {
    let foo = blob_id(b"foo");
    let mut base = Tree::new();
    base.add_child("name", &foo, FILE);
    let mut renamed = Tree::new();
    renamed.add_child("namf", &foo, FILE);
    assert_ne!(base.id(), renamed.id());
    let mut bytes = foo.bytes;
    bytes[31] ^= 1;
    let mut other = Tree::new();
    other.add_child("name", &Digest::from_bytes(bytes), FILE);
    assert_ne!(base.id(), other.id());
    let mut as_tree = Tree::new();
    as_tree.add_child("name", &foo, NodeType::Tree);
    assert_ne!(base.id(), as_tree.id());
}

#[test]
fn name_rules() {
    assert!(treedb::names::is_valid_name("a"));
    assert!(treedb::names::is_valid_name("über.txt"));
    assert!(!treedb::names::is_valid_name(""));
    assert!(!treedb::names::is_valid_name("a/b"));
    assert!(!treedb::names::is_valid_name("a\0b"));
}

#[test]
fn byte_order_comparison() {
    assert!(compare_bytes(b"a", b"b") < 0);
    assert!(compare_bytes(b"b", b"a") > 0);
    assert!(compare_bytes(b"ab", b"ab") == 0);
    assert!(compare_bytes(b"a", b"ab") < 0);
    assert!(compare_bytes(b"", b"a") < 0);
    assert!(compare_bytes(b"Z", b"a") < 0);
}

#[test]
fn blob_digest_and_hex() {
    let d = Digest::of_blob(b"foo");
    assert_eq!(d.bytes, *blake3::hash(b"foo").as_bytes());
    let hex = d.to_hex();
    assert_eq!(hex.len(), 64);
    assert_eq!(hex, blake3::hash(b"foo").to_hex().as_str());
    let mut bytes = [0u8; 32];
    bytes[0] = 0xab;
    bytes[1] = 0x05;
    let h = Digest::from_bytes(bytes).to_hex();
    assert!(h.starts_with("ab05"));
    assert_eq!(Digest::from_bytes(bytes).as_bytes(), bytes);
}

#[test]
fn derive_differs_by_context() {
    let a = Digest::derive("tree_id", b"x");
    let b = Digest::derive("other", b"x");
    assert_eq!(a.bytes, blake3::derive_key("tree_id", b"x"));
    assert_ne!(a, b);
}

#[test]
fn greeting() {
    assert_eq!(treedb::get_rust_str(), "Rust function!");
}
