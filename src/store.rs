//! The decisions of the persistent store: how children are laid out as
//! table rows and read back, when a tree may be inserted, and where a blob
//! lives. Reading and writing the database and the files is left to the
//! caller, which hands the outcomes of those steps in as plain values.
use vstd::prelude::*;
use vstd::string::StringSliceAdditionalSpecFns;
use vstd::utf8::encode_utf8;
use crate::digest::{hex_of, Digest};
use crate::names::{is_valid_name, valid_name};
use crate::tree::{canonical, child_map, ChildView, NodeType, Tree};

verus! {

/// Blobs shorter than this many bytes are stored inline in the blobs
/// table; longer ones are stored as sidecar files.
pub const LARGE_BLOB_THRESHOLD: usize = 65536;

/// What went wrong in a store operation, beyond the failures of the
/// database or file system themselves.
#[derive(Clone, Copy, Debug, PartialEq, Eq)]
pub enum StoreError {
    /// A tree refers to a blob that the store does not hold.
    MissingBlob(Digest),
    /// A tree refers to a subtree that the store does not hold.
    MissingTree(Digest),
    /// A stored child row has a kind pair that names no node kind.
    UnknownNodeType { node_type: u8, executable: bool },
    /// A stored child row has a name that no tree may hold.
    InvalidName,
    /// An inline blob is not shorter than the threshold.
    InlineBlobTooLarge { len: u64 },
    /// A sidecar blob is shorter than the threshold.
    SidecarTooSmall { len: u64 },
    /// The source file changed while it was being imported.
    SourceModified,
}

/// The stored pair `(node_type, executable)` of a node kind.
pub open spec fn row_of(k: NodeType) -> (u8, bool) {
    match k {
        NodeType::Blob { executable } => (0u8, executable),
        NodeType::Tree => (1u8, false),
    }
}

/// Whether a stored pair names a node kind.
pub open spec fn known_pair(node_type: u8, executable: bool) -> bool {
    node_type == 0 || (node_type == 1 && !executable)
}

/// The node kind that a known stored pair names.
pub open spec fn kind_of_pair(node_type: u8, executable: bool) -> NodeType {
    if node_type == 0 {
        NodeType::Blob { executable }
    } else {
        NodeType::Tree
    }
}

impl NodeType {
    /// The pair `(node_type, executable)` that stores this kind.
    pub fn to_row(self) -> (r: (u8, bool))
        ensures
            r == row_of(self),
    {
        match self {
            NodeType::Blob { executable } => (0u8, executable),
            NodeType::Tree => (1u8, false),
        }
    }

    /// The kind that a stored pair names; any pair other than `(0, _)` and
    /// `(1, false)` is corrupt.
    pub fn from_row(node_type: u8, executable: bool) -> (r: Result<NodeType, StoreError>)
        ensures
            known_pair(node_type, executable) ==> r == Ok::<NodeType, StoreError>(
                kind_of_pair(node_type, executable),
            ),
            !known_pair(node_type, executable) ==> r == Err::<NodeType, StoreError>(
                StoreError::UnknownNodeType { node_type, executable },
            ),
    {
        if node_type == 0 {
            Ok(NodeType::Blob { executable })
        } else if node_type == 1 && !executable {
            Ok(NodeType::Tree)
        } else {
            Err(StoreError::UnknownNodeType { node_type, executable })
        }
    }
}

/// Every node kind survives its stored pair.
pub proof fn lemma_row_round_trip(k: NodeType)
    ensures
        known_pair(row_of(k).0, row_of(k).1),
        kind_of_pair(row_of(k).0, row_of(k).1) == k,
{
}

/// One row of the trees table: a child of the tree that the row is keyed by.
#[derive(Clone, Debug, PartialEq, Eq)]
pub struct TreeRow {
    pub child_name: String,
    pub child_id: Digest,
    pub node_type: u8,
    pub executable: bool,
}

/// A row seen as raw name bytes, digest bytes and the stored kind pair.
pub type RowView = (Seq<u8>, Seq<u8>, u8, bool);

impl View for TreeRow {
    type V = RowView;

    open spec fn view(&self) -> RowView {
        (encode_utf8(self.child_name@), self.child_id@, self.node_type, self.executable)
    }
}

/// The row that stores a child.
pub open spec fn row_of_child(c: ChildView) -> RowView {
    (c.0, c.1, row_of(c.2).0, row_of(c.2).1)
}

/// The rows that store a sequence of children, in the same order.
pub open spec fn rows_of(s: Seq<ChildView>) -> Seq<RowView> {
    s.map_values(|c: ChildView| row_of_child(c))
}

/// Whether a row can be read back as a child.
pub open spec fn row_ok(r: RowView) -> bool {
    valid_name(r.0) && known_pair(r.2, r.3)
}

/// The error that reading back a bad row reports.
pub open spec fn row_error(r: RowView) -> StoreError {
    if !known_pair(r.2, r.3) {
        StoreError::UnknownNodeType { node_type: r.2, executable: r.3 }
    } else {
        StoreError::InvalidName
    }
}

/// The map from name to digest and kind that adding the rows one after
/// another builds.
pub open spec fn rows_map(s: Seq<RowView>) -> Map<Seq<u8>, (Seq<u8>, NodeType)>
    decreases s.len(),
{
    if s.len() == 0 {
        Map::empty()
    } else {
        let r = s.last();
        rows_map(s.drop_last()).insert(r.0, (r.1, kind_of_pair(r.2, r.3)))
    }
}

impl Tree {
    /// The rows that store this tree's children, in canonical order.
    pub fn rows(&self) -> (r: Vec<TreeRow>)
        requires
            self.wf(),
        ensures
            r@.map_values(|t: TreeRow| t@) == rows_of(self@),
    {
        let children = self.iter();
        let mut rows: Vec<TreeRow> = Vec::new();
        let mut i: usize = 0;
        while i < children.len()
            invariant
                i <= children@.len(),
                children@.map_values(|c: crate::tree::Child| c@) == self@,
                rows@.map_values(|t: TreeRow| t@) == rows_of(self@).subrange(0, i as int),
            decreases children@.len() - i,
        {
            let c = &children[i];
            let (node_type, executable) = c.node_type.to_row();
            let row = TreeRow { child_name: c.name.clone(), child_id: c.id, node_type, executable };
            assert(self@[i as int] == c@);
            assert(row@ == row_of_child(c@));
            let ghost before = rows@;
            rows.push(row);
            assert(before.map_values(|t: TreeRow| t@).push(row@) =~= rows@.map_values(
                |t: TreeRow| t@,
            ));
            assert(rows_of(self@).subrange(0, i + 1) =~= rows_of(self@).subrange(0, i as int).push(
                row_of_child(c@),
            ));
            i = i + 1;
        }
        assert(rows_of(self@).subrange(0, i as int) =~= rows_of(self@));
        rows
    }
}

/// The views of a list of rows.
pub open spec fn row_views(rows: Seq<TreeRow>) -> Seq<RowView> {
    rows.map_values(|t: TreeRow| t@)
}

/// Reads a tree back from its stored rows. Rows are taken in the order
/// given; the first row with a corrupt kind pair or an illegal name is
/// reported. No rows means that the store holds no such tree.
pub fn tree_from_rows(rows: &Vec<TreeRow>) -> (r: Result<Option<Tree>, StoreError>)
    ensures
        (forall|i: int| 0 <= i < rows@.len() ==> row_ok(#[trigger] row_views(rows@)[i])) <==> r is Ok,
        r matches Err(e) ==> exists|i: int|
            0 <= i < rows@.len() && !row_ok(#[trigger] row_views(rows@)[i]) && (forall|j: int|
                0 <= j < i ==> row_ok(#[trigger] row_views(rows@)[j])) && e == row_error(
                row_views(rows@)[i],
            ),
        r matches Ok(None) ==> rows@.len() == 0,
        r is Ok && rows@.len() == 0 ==> r matches Ok(None),
        r matches Ok(Some(t)) ==> t.wf() && t@.len() > 0 && t.children_map() == rows_map(
            row_views(rows@),
        ),
{
    let ghost v = row_views(rows@);
    let mut tree = Tree::new();
    let mut i: usize = 0;
    assert(v.subrange(0, 0) =~= Seq::<RowView>::empty());
    while i < rows.len()
        invariant
            i <= rows@.len(),
            v == row_views(rows@),
            tree.wf(),
            tree.children_map() == rows_map(v.subrange(0, i as int)),
            forall|j: int| 0 <= j < i ==> row_ok(#[trigger] v[j]),
        decreases rows@.len() - i,
    {
        let row = &rows[i];
        assert(v[i as int] == row@);
        let kind = match NodeType::from_row(row.node_type, row.executable) {
            Ok(k) => k,
            Err(e) => {
                return Err(e);
            },
        };
        if !is_valid_name(row.child_name.as_str()) {
            return Err(StoreError::InvalidName);
        }
        tree.add_child(row.child_name.as_str(), &row.child_id, kind);
        assert(v.subrange(0, i + 1).drop_last() =~= v.subrange(0, i as int));
        i = i + 1;
    }
    assert(v.subrange(0, i as int) =~= v);
    if tree.len() > 0 {
        proof {
            crate::tree::lemma_map_at(tree@, 0);
            if v.len() == 0 {
                assert(rows_map(v) == Map::<Seq<u8>, (Seq<u8>, NodeType)>::empty());
            }
        }
        Ok(Some(tree))
    } else {
        proof {
            if v.len() > 0 {
                assert(tree.children_map().contains_key(v.last().0));
            }
        }
        Ok(None)
    }
}

/// The rows of a canonical tree read back as exactly its map.
pub proof fn lemma_rows_map(s: Seq<ChildView>)
    requires
        canonical(s),
    ensures
        forall|i: int| 0 <= i < s.len() ==> row_ok(#[trigger] rows_of(s)[i]),
        rows_map(rows_of(s)) == child_map(s),
    decreases s.len(),
{
    if s.len() == 0 {
        assert(child_map(s) =~= Map::<Seq<u8>, (Seq<u8>, NodeType)>::empty());
    } else {
        let p = s.drop_last();
        let c = s.last();
        assert(canonical(p)) by {
            assert forall|a: int, b: int| 0 <= a < b < p.len() implies crate::names::bytes_lt(
                #[trigger] p[a].0,
                #[trigger] p[b].0,
            ) by {
                assert(p[a] == s[a] && p[b] == s[b]);
            }
            assert forall|a: int| 0 <= a < p.len() implies valid_name(#[trigger] p[a].0)
                && p[a].1.len() == 32 by {
                assert(p[a] == s[a]);
            }
        }
        lemma_rows_map(p);
        assert(rows_of(s).drop_last() =~= rows_of(p));
        assert(s =~= p.insert(p.len() as int, c));
        assert forall|j: int| 0 <= j < p.len() implies crate::names::bytes_lt(#[trigger] p[j].0, c.0) by {
            assert(p[j] == s[j]);
        }
        Tree::lemma_after_insert(p, p.len() as int, c);
        assert forall|i: int| 0 <= i < s.len() implies row_ok(#[trigger] rows_of(s)[i]) by {
            assert(rows_of(s)[i] == row_of_child(s[i]));
        }
    }
}

/// Rows that name no child twice, as the trees table's key guarantees.
pub open spec fn distinct_names(s: Seq<RowView>) -> bool {
    forall|i: int, j: int| 0 <= i < j < s.len() ==> #[trigger] s[i].0 != #[trigger] s[j].0
}

/// Over rows with distinct names, the map holds each row under its name.
pub proof fn lemma_rows_map_at(s: Seq<RowView>)
    requires
        distinct_names(s),
    ensures
        forall|k: Seq<u8>| #[trigger] rows_map(s).contains_key(k) <==> exists|i: int|
            0 <= i < s.len() && #[trigger] s[i].0 == k,
        forall|i: int|
            0 <= i < s.len() ==> #[trigger] rows_map(s)[s[i].0] == (s[i].1, kind_of_pair(s[i].2, s[i].3)),
    decreases s.len(),
{
    if s.len() > 0 {
        let p = s.drop_last();
        assert forall|i: int, j: int| 0 <= i < j < p.len() implies #[trigger] p[i].0 != #[trigger] p[j].0 by {
            assert(p[i] == s[i] && p[j] == s[j]);
        }
        lemma_rows_map_at(p);
        let l = s.last();
        assert(rows_map(s) == rows_map(p).insert(l.0, (l.1, kind_of_pair(l.2, l.3))));
        assert forall|k: Seq<u8>| #[trigger] rows_map(s).contains_key(k) <==> exists|i: int|
            0 <= i < s.len() && #[trigger] s[i].0 == k by {
            if rows_map(p).contains_key(k) {
                let i = choose|i: int| 0 <= i < p.len() && #[trigger] p[i].0 == k;
                assert(s[i].0 == k);
            }
            if exists|i: int| 0 <= i < s.len() && #[trigger] s[i].0 == k {
                let i = choose|i: int| 0 <= i < s.len() && #[trigger] s[i].0 == k;
                if i < p.len() {
                    assert(p[i].0 == k);
                }
            }
        }
        assert forall|i: int| 0 <= i < s.len() implies #[trigger] rows_map(s)[s[i].0] == (
            s[i].1,
            kind_of_pair(s[i].2, s[i].3),
        ) by {
            if i < p.len() {
                assert(p[i] == s[i]);
                assert(s[i].0 != s.last().0);
                assert(rows_map(p)[p[i].0] == (p[i].1, kind_of_pair(p[i].2, p[i].3)));
            } else {
                assert(s[i] == s.last());
            }
        }
    }
}

/// Round trip through the trees table: whatever order the table hands the
/// rows of a tree back in, they read back as that tree, with the same
/// children in the same order.
pub proof fn lemma_tree_round_trip(t: Tree, rows: Seq<RowView>)
    requires
        t.wf(),
        distinct_names(rows),
        forall|r: RowView| #[trigger] rows.contains(r) <==> rows_of(t@).contains(r),
    ensures
        forall|i: int| 0 <= i < rows.len() ==> row_ok(#[trigger] rows[i]),
        forall|back: Tree|
            #![trigger back.children_map()]
            back.wf() && back.children_map() == rows_map(rows) ==> back@ == t@,
{
    let s = t@;
    lemma_rows_map(s);
    lemma_rows_map_at(rows);
    assert forall|i: int| 0 <= i < rows.len() implies row_ok(#[trigger] rows[i]) by {
        assert(rows.contains(rows[i]));
        let j = choose|j: int| 0 <= j < rows_of(s).len() && rows_of(s)[j] == rows[i];
    }
    assert forall|k: Seq<u8>| #[trigger] rows_map(rows).contains_key(k) <==> child_map(s).contains_key(k) by {
        if rows_map(rows).contains_key(k) {
            let i = choose|i: int| 0 <= i < rows.len() && #[trigger] rows[i].0 == k;
            assert(rows.contains(rows[i]));
            let j = choose|j: int| 0 <= j < rows_of(s).len() && rows_of(s)[j] == rows[i];
            assert(s[j].0 == k);
        }
        if child_map(s).contains_key(k) {
            let j = crate::tree::position_of(s, k);
            assert(0 <= j < s.len() && s[j].0 == k);
            assert(rows_of(s)[j] == row_of_child(s[j]));
            assert(rows_of(s).contains(rows_of(s)[j]));
            assert(rows.contains(rows_of(s)[j]));
            let i = choose|i: int| 0 <= i < rows.len() && rows[i] == rows_of(s)[j];
            assert(rows[i].0 == k);
        }
    }
    assert forall|k: Seq<u8>| #[trigger] rows_map(rows).contains_key(k) implies rows_map(rows)[k]
        == child_map(s)[k] by {
        let i = choose|i: int| 0 <= i < rows.len() && #[trigger] rows[i].0 == k;
        assert(rows.contains(rows[i]));
        let j = choose|j: int| 0 <= j < rows_of(s).len() && rows_of(s)[j] == rows[i];
        assert(rows_of(s)[j] == row_of_child(s[j]));
        crate::tree::lemma_map_at(s, j);
        lemma_row_round_trip(s[j].2);
        assert(rows_map(rows)[rows[i].0] == (rows[i].1, kind_of_pair(rows[i].2, rows[i].3)));
    }
    assert(rows_map(rows) =~= child_map(s));
    assert forall|back: Tree|
        #![trigger back.children_map()]
        back.wf() && back.children_map() == rows_map(rows) implies back@ == t@ by {
        crate::tree::lemma_canonical_unique(back@, s);
    }
}

/// Whether `e` is the error that reports the child `c` as missing.
pub open spec fn missing_error(c: ChildView, e: StoreError) -> bool {
    match c.2 {
        NodeType::Blob { .. } => e matches StoreError::MissingBlob(d) && d@ == c.1,
        NodeType::Tree => e matches StoreError::MissingTree(d) && d@ == c.1,
    }
}

/// What inserting a tree comes to.
#[derive(Clone, Debug, PartialEq, Eq)]
pub enum TreeInsert {
    /// The store already holds the tree: nothing is written.
    AlreadyStored,
    /// These rows are to be written, keyed by the tree's digest.
    WriteRows(Vec<TreeRow>),
}

/// Decides the insertion of a non-empty tree. `stored` tells whether the
/// store already holds rows for the tree's digest; `present[i]` tells whether
/// it holds the referent of the `i`-th child in canonical order (a blob for
/// a blob child, a tree for a subtree). A tree whose referents are not all
/// present is refused, naming the first missing one.
pub fn plan_tree_insert(tree: &Tree, stored: bool, present: &Vec<bool>) -> (r: Result<
    TreeInsert,
    StoreError,
>)
    requires
        tree.wf(),
        tree@.len() > 0,
        present@.len() == tree@.len(),
    ensures
        stored ==> r == Ok::<TreeInsert, StoreError>(TreeInsert::AlreadyStored),
        !stored ==> (r is Ok <==> forall|i: int| 0 <= i < present@.len() ==> #[trigger] present@[i]),
        r matches Err(e) ==> exists|i: int|
            0 <= i < present@.len() && !present@[i] && (forall|j: int|
                0 <= j < i ==> #[trigger] present@[j]) && missing_error(tree@[i], e),
        !stored && r is Ok ==> (r matches Ok(TreeInsert::WriteRows(rows)) && row_views(rows@)
            == rows_of(tree@)),
{
    if stored {
        return Ok(TreeInsert::AlreadyStored);
    }
    let children = tree.iter();
    let mut i: usize = 0;
    while i < present.len()
        invariant
            i <= present@.len(),
            present@.len() == tree@.len(),
            !stored,
            children@.map_values(|c: crate::tree::Child| c@) == tree@,
            forall|j: int| 0 <= j < i ==> #[trigger] present@[j],
        decreases present@.len() - i,
    {
        if !present[i] {
            let c = &children[i];
            assert(tree@[i as int] == c@);
            return match c.node_type {
                NodeType::Blob { .. } => Err(StoreError::MissingBlob(c.id)),
                NodeType::Tree => Err(StoreError::MissingTree(c.id)),
            };
        }
        i = i + 1;
    }
    let rows = tree.rows();
    Ok(TreeInsert::WriteRows(rows))
}

/// Where a blob is stored.
#[derive(Clone, Copy, Debug, PartialEq, Eq, Structural)]
pub enum BlobTier {
    /// In the `data` column of its row.
    Inline,
    /// In a sidecar file named by its hexadecimal digest.
    Sidecar,
}

/// The tier of a blob of `len` bytes: inline exactly when it is shorter
/// than the threshold.
pub fn blob_tier(len: u64) -> (r: BlobTier)
    ensures
        r == BlobTier::Inline <==> len < LARGE_BLOB_THRESHOLD,
        r == BlobTier::Sidecar <==> len >= LARGE_BLOB_THRESHOLD,
{
    if len < LARGE_BLOB_THRESHOLD as u64 {
        BlobTier::Inline
    } else {
        BlobTier::Sidecar
    }
}

/// What inserting a blob comes to.
#[derive(Clone, Debug, PartialEq, Eq)]
pub enum BlobInsert {
    /// The store already holds the blob: nothing is written.
    AlreadyStored,
    /// Write a row that holds the bytes.
    WriteInline,
    /// Write a row with no data, then the bytes to the named sidecar file.
    WriteSidecar { file_name: String },
}

/// Decides the insertion of a blob of `len` bytes with digest `id`;
/// `stored` tells whether the store already holds a row for `id`.
pub fn plan_blob_insert(id: &Digest, len: u64, stored: bool) -> (r: BlobInsert)
    ensures
        stored ==> r == BlobInsert::AlreadyStored,
        !stored && len < LARGE_BLOB_THRESHOLD ==> r == BlobInsert::WriteInline,
        !stored && len >= LARGE_BLOB_THRESHOLD ==> (r matches BlobInsert::WriteSidecar { file_name }
            && file_name@ == hex_of(id@)),
{
    if stored {
        BlobInsert::AlreadyStored
    } else {
        match blob_tier(len) {
            BlobTier::Inline => BlobInsert::WriteInline,
            BlobTier::Sidecar => BlobInsert::WriteSidecar { file_name: id.to_hex() },
        }
    }
}

/// Checks a blob read from a sidecar file: it must not be shorter than the
/// threshold.
pub fn check_sidecar_len(len: u64) -> (r: Result<(), StoreError>)
    ensures
        len >= LARGE_BLOB_THRESHOLD ==> r is Ok,
        len < LARGE_BLOB_THRESHOLD ==> r == Err::<(), StoreError>(StoreError::SidecarTooSmall { len }),
{
    if len >= LARGE_BLOB_THRESHOLD as u64 {
        Ok(())
    } else {
        Err(StoreError::SidecarTooSmall { len })
    }
}

/// Checks a blob read from the `data` column: it must be shorter than the
/// threshold.
pub fn check_inline_len(len: u64) -> (r: Result<(), StoreError>)
    ensures
        len < LARGE_BLOB_THRESHOLD ==> r is Ok,
        len >= LARGE_BLOB_THRESHOLD ==> r == Err::<(), StoreError>(StoreError::InlineBlobTooLarge { len }),
{
    if len < LARGE_BLOB_THRESHOLD as u64 {
        Ok(())
    } else {
        Err(StoreError::InlineBlobTooLarge { len })
    }
}

/// What is recorded of a source file to notice that it changed: its
/// modification time and its inode (zero where the platform has none).
#[derive(Clone, Copy, Debug, PartialEq, Eq, Structural)]
pub struct FileStamp {
    pub modified_secs: i64,
    pub modified_nanos: u32,
    pub inode: u64,
}

/// Checks that a source file kept its modification time and inode across
/// the hash and the copy of an import.
pub fn check_source_unchanged(before: &FileStamp, after: &FileStamp) -> (r: Result<(), StoreError>)
    ensures
        *before == *after ==> r is Ok,
        *before != *after ==> r == Err::<(), StoreError>(StoreError::SourceModified),
{
    if before.modified_secs == after.modified_secs && before.modified_nanos == after.modified_nanos
        && before.inode == after.inode {
        Ok(())
    } else {
        Err(StoreError::SourceModified)
    }
}

} // verus!
