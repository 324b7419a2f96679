use treedb::digest::Digest;
use treedb::store::{
    blob_tier, check_inline_len, check_sidecar_len, check_source_unchanged, plan_blob_insert,
    plan_tree_insert, tree_from_rows, BlobInsert, BlobTier, FileStamp, StoreError, TreeInsert,
    TreeRow, LARGE_BLOB_THRESHOLD,
};
use treedb::tree::{NodeType, Tree};

const FILE: NodeType = NodeType::Blob { executable: false };

fn row(name: &str, id: Digest, node_type: u8, executable: bool) -> TreeRow {
    TreeRow { child_name: name.to_string(), child_id: id, node_type, executable }
}

fn sample_root() -> Tree {
    let foo = Digest::of_blob(b"foo");
    let mut c = Tree::new();
    c.add_child("d", &Digest::of_blob(b"bar"), FILE);
    let mut root = Tree::new();
    root.add_child("a", &foo, FILE);
    root.add_child("b", &foo, NodeType::Blob { executable: true });
    root.add_child("c", &c.id(), NodeType::Tree);
    root
}

#[test]
fn node_type_rows() {
    assert_eq!(FILE.to_row(), (0, false));
    assert_eq!(NodeType::Blob { executable: true }.to_row(), (0, true));
    assert_eq!(NodeType::Tree.to_row(), (1, false));
    assert_eq!(NodeType::from_row(0, true), Ok(NodeType::Blob { executable: true }));
    assert_eq!(NodeType::from_row(1, false), Ok(NodeType::Tree));
    assert_eq!(
        NodeType::from_row(1, true),
        Err(StoreError::UnknownNodeType { node_type: 1, executable: true })
    );
    assert_eq!(
        NodeType::from_row(2, false),
        Err(StoreError::UnknownNodeType { node_type: 2, executable: false })
    );
}

#[test]
fn rows_round_trip() {
    let root = sample_root();
    let rows = root.rows();
    assert_eq!(rows.len(), 3);
    assert_eq!(rows[2].node_type, 1);
    assert_eq!(rows[1].executable, true);
    assert_eq!(tree_from_rows(&rows), Ok(Some(root.clone())));
    let mut reversed = rows.clone();
    reversed.reverse();
    assert_eq!(tree_from_rows(&reversed), Ok(Some(root)));
}

#[test]
fn no_rows_means_absent() {
    assert_eq!(tree_from_rows(&Vec::new()), Ok(None));
}

#[test]
fn corrupt_rows_are_reported() {
    let foo = Digest::of_blob(b"foo");
    let rows = vec![row("a", foo, 0, false), row("b", foo, 1, true), row("c/", foo, 0, false)];
    assert_eq!(
        tree_from_rows(&rows),
        Err(StoreError::UnknownNodeType { node_type: 1, executable: true })
    );
    let rows = vec![row("a", foo, 0, false), row("c/", foo, 0, false), row("b", foo, 7, false)];
    assert_eq!(tree_from_rows(&rows), Err(StoreError::InvalidName));
    assert_eq!(tree_from_rows(&vec![row("", foo, 0, false)]), Err(StoreError::InvalidName));
}

#[test]
fn tree_insert_needs_referents() {
    let root = sample_root();
    let foo = Digest::of_blob(b"foo");
    let all = vec![true, true, true];
    match plan_tree_insert(&root, false, &all) {
        Ok(TreeInsert::WriteRows(rows)) => assert_eq!(rows, root.rows()),
        other => panic!("unexpected {:?}", other),
    }
    assert_eq!(
        plan_tree_insert(&root, false, &vec![false, true, true]),
        Err(StoreError::MissingBlob(foo))
    );
    let c_id = root.get_child("c").unwrap().id;
    assert_eq!(
        plan_tree_insert(&root, false, &vec![true, true, false]),
        Err(StoreError::MissingTree(c_id))
    );
    assert_eq!(
        plan_tree_insert(&root, false, &vec![true, false, false]),
        Err(StoreError::MissingBlob(foo))
    );
    assert_eq!(plan_tree_insert(&root, true, &vec![false, false, false]), Ok(TreeInsert::AlreadyStored));
}

#[test]
fn threshold_boundary() {
    assert_eq!(LARGE_BLOB_THRESHOLD, 65536);
    assert_eq!(blob_tier(0), BlobTier::Inline);
    assert_eq!(blob_tier(65535), BlobTier::Inline);
    assert_eq!(blob_tier(65536), BlobTier::Sidecar);
    assert_eq!(blob_tier(u64::MAX), BlobTier::Sidecar);
}

#[test]
fn blob_insert_plans() {
    let id = Digest::of_blob(b"foo");
    assert_eq!(plan_blob_insert(&id, 3, true), BlobInsert::AlreadyStored);
    assert_eq!(plan_blob_insert(&id, 70000, true), BlobInsert::AlreadyStored);
    assert_eq!(plan_blob_insert(&id, 65535, false), BlobInsert::WriteInline);
    assert_eq!(
        plan_blob_insert(&id, 65536, false),
        BlobInsert::WriteSidecar { file_name: blake3::hash(b"foo").to_hex().to_string() }
    );
}

#[test]
fn fetched_lengths_are_checked() {
    assert_eq!(check_inline_len(65535), Ok(()));
    assert_eq!(check_inline_len(65536), Err(StoreError::InlineBlobTooLarge { len: 65536 }));
    assert_eq!(check_sidecar_len(65536), Ok(()));
    assert_eq!(check_sidecar_len(10), Err(StoreError::SidecarTooSmall { len: 10 }));
}

#[test]
fn source_change_is_noticed() {
    let a = FileStamp { modified_secs: 100, modified_nanos: 5, inode: 9 };
    assert_eq!(check_source_unchanged(&a, &a), Ok(()));
    let later = FileStamp { modified_nanos: 6, ..a };
    assert_eq!(check_source_unchanged(&a, &later), Err(StoreError::SourceModified));
    let moved = FileStamp { inode: 10, ..a };
    assert_eq!(check_source_unchanged(&a, &moved), Err(StoreError::SourceModified));
}

/// A store kept in memory: the blob digests and the tree digests it holds.
struct MemStore {
    blobs: Vec<Digest>,
    trees: Vec<Digest>,
}

impl MemStore {
    fn insert_blob(&mut self, b: &[u8]) -> Digest {
        let id = Digest::of_blob(b);
        if plan_blob_insert(&id, b.len() as u64, self.blobs.contains(&id)) != BlobInsert::AlreadyStored {
            self.blobs.push(id);
        }
        id
    }

    fn insert_tree(&mut self, t: &Tree) -> Result<Digest, StoreError> {
        let id = t.id();
        let present: Vec<bool> = t
            .iter()
            .into_iter()
            .map(|c| match c.node_type {
                NodeType::Blob { .. } => self.blobs.contains(&c.id),
                NodeType::Tree => self.trees.contains(&c.id),
            })
            .collect();
        match plan_tree_insert(t, self.trees.contains(&id), &present)? {
            TreeInsert::AlreadyStored => {}
            TreeInsert::WriteRows(_) => self.trees.push(id),
        }
        Ok(id)
    }
}

#[test]
fn missing_referent_then_retry() {
    let foo_id = Digest::of_blob(b"foo");
    let bar_id = Digest::of_blob(b"bar");
    let mut c = Tree::new();
    c.add_child("d", &bar_id, FILE);
    let mut root = Tree::new();
    root.add_child("a", &foo_id, FILE);
    root.add_child("b", &foo_id, FILE);
    root.add_child("c", &c.id(), NodeType::Tree);

    let mut full = MemStore { blobs: Vec::new(), trees: Vec::new() };
    full.insert_blob(b"foo");
    full.insert_blob(b"bar");
    full.insert_blob(b"foo");
    assert_eq!(full.blobs.len(), 2);
    let c_id = full.insert_tree(&c).unwrap();
    let root_id = full.insert_tree(&root).unwrap();
    assert_eq!(full.insert_tree(&root), Ok(root_id));
    assert_eq!(full.trees.len(), 2);

    let mut fresh = MemStore { blobs: Vec::new(), trees: Vec::new() };
    fresh.insert_blob(b"bar");
    assert_eq!(fresh.insert_tree(&c), Ok(c_id));
    assert_eq!(fresh.insert_tree(&root), Err(StoreError::MissingBlob(foo_id)));
    assert!(!fresh.trees.contains(&root_id));
    fresh.insert_blob(b"foo");
    assert_eq!(fresh.insert_tree(&root), Ok(root_id));

    let mut no_subtree = MemStore { blobs: Vec::new(), trees: Vec::new() };
    no_subtree.insert_blob(b"foo");
    no_subtree.insert_blob(b"bar");
    assert_eq!(no_subtree.insert_tree(&root), Err(StoreError::MissingTree(c_id)));
    assert_eq!(no_subtree.insert_tree(&c), Ok(c_id));
    assert_eq!(no_subtree.insert_tree(&root), Ok(root_id));
}
