//! The in-memory tree value: a canonical map from child name to digest and
//! node kind, and the digest that identifies it.
use vstd::prelude::*;
use vstd::string::StringSliceAdditionalSpecFns;
use vstd::utf8::encode_utf8;
use crate::digest::{derive_key_of, Digest};
use crate::names::{bytes_lt, compare_bytes, lemma_lt_asymmetric, lemma_lt_irreflexive, lemma_lt_total, lemma_lt_transitive, valid_name, NUL};

verus! {

/// What a child of a tree is.
#[derive(Clone, Copy, Debug, PartialEq, Eq, Structural)]
pub enum NodeType {
    Blob { executable: bool },
    Tree,
}

/// One child of a tree: its name, the digest of its content and its kind.
#[derive(Clone, Debug, PartialEq, Eq)]
pub struct Child {
    pub name: String,
    pub id: Digest,
    pub node_type: NodeType,
}

/// A child seen as raw name bytes, digest bytes and kind.
pub type ChildView = (Seq<u8>, Seq<u8>, NodeType);

impl View for Child {
    type V = ChildView;

    open spec fn view(&self) -> ChildView {
        (encode_utf8(self.name@), self.id@, self.node_type)
    }
}

/// Children in canonical order: legal names, strictly ascending in byte
/// order (so no name occurs twice), and 32-byte digests.
pub open spec fn canonical(s: Seq<ChildView>) -> bool {
    &&& forall|i: int, j: int| 0 <= i < j < s.len() ==> bytes_lt(#[trigger] s[i].0, #[trigger] s[j].0)
    &&& forall|i: int| #![trigger s[i]] 0 <= i < s.len() ==> valid_name(s[i].0) && s[i].1.len() == 32
}

/// A position of `s` at which the child named `k` stands, if there is one.
pub open spec fn position_of(s: Seq<ChildView>, k: Seq<u8>) -> int {
    choose|i: int| 0 <= i < s.len() && #[trigger] s[i].0 == k
}

/// The children as a map from name to digest and kind.
pub open spec fn child_map(s: Seq<ChildView>) -> Map<Seq<u8>, (Seq<u8>, NodeType)> {
    Map::new(
        |k: Seq<u8>| exists|i: int| 0 <= i < s.len() && #[trigger] s[i].0 == k,
        |k: Seq<u8>| (s[position_of(s, k)].1, s[position_of(s, k)].2),
    )
}

/// Each child of a canonical sequence has a legal name and a 32-byte digest.
pub proof fn lemma_canonical_at(s: Seq<ChildView>, a: int)
    requires
        canonical(s),
        0 <= a < s.len(),
    ensures
        valid_name(s[a].0),
        s[a].1.len() == 32,
{
}

/// In canonical order a name occurs at one position only.
pub proof fn lemma_unique_names(s: Seq<ChildView>, i: int, j: int)
    requires
        canonical(s),
        0 <= i < s.len(),
        0 <= j < s.len(),
        s[i].0 == s[j].0,
    ensures
        i == j,
{
    lemma_lt_irreflexive(s[i].0);
    if i < j {
        assert(bytes_lt(s[i].0, s[j].0));
    } else if j < i {
        assert(bytes_lt(s[j].0, s[i].0));
    }
}

/// The map holds each child under its name.
pub proof fn lemma_map_at(s: Seq<ChildView>, i: int)
    requires
        canonical(s),
        0 <= i < s.len(),
    ensures
        child_map(s).contains_key(s[i].0),
        child_map(s)[s[i].0] == (s[i].1, s[i].2),
{
    let k = s[i].0;
    assert(child_map(s).contains_key(k));
    let j = position_of(s, k);
    lemma_unique_names(s, i, j);
}

/// The domain-separation context of a tree's digest.
pub const TREE_ID_CONTEXT: &'static str = "tree_id";

/// The two bytes that encode a node kind in a tree's digest input.
pub open spec fn kind_bytes(k: NodeType) -> Seq<u8> {
    match k {
        NodeType::Blob { executable: false } => seq![0u8, 0u8],
        NodeType::Blob { executable: true } => seq![0u8, 1u8],
        NodeType::Tree => seq![1u8, 0u8],
    }
}

/// What one child contributes to its tree's digest input: its digest, its
/// kind, its name, and a NUL terminator.
pub open spec fn child_frame(c: ChildView) -> Seq<u8> {
    c.1 + kind_bytes(c.2) + c.0 + seq![NUL]
}

/// The digest input of a tree: the frames of its children, in order.
pub open spec fn tree_frame(s: Seq<ChildView>) -> Seq<u8>
    decreases s.len(),
{
    if s.len() == 0 {
        Seq::empty()
    } else {
        child_frame(s[0]) + tree_frame(s.drop_first())
    }
}

/// The digest of a tree with the children `s`.
pub open spec fn tree_digest(s: Seq<ChildView>) -> Seq<u8> {
    derive_key_of(TREE_ID_CONTEXT@, tree_frame(s))
}

/// Appending a child appends its frame.
pub proof fn lemma_frame_push(s: Seq<ChildView>, c: ChildView)
    ensures
        tree_frame(s.push(c)) == tree_frame(s) + child_frame(c),
    decreases s.len(),
{
    if s.len() == 0 {
        assert(s.push(c).drop_first() =~= Seq::<ChildView>::empty());
        assert(tree_frame(Seq::<ChildView>::empty()) == Seq::<u8>::empty());
        assert(tree_frame(s) == Seq::<u8>::empty());
        assert(tree_frame(s.push(c)) =~= tree_frame(s) + child_frame(c));
    } else {
        assert(s.push(c).drop_first() =~= s.drop_first().push(c));
        lemma_frame_push(s.drop_first(), c);
        assert(tree_frame(s.push(c)) =~= tree_frame(s) + child_frame(c));
    }
}

/// Appends the bytes of `b` to `buf`.
fn append_bytes(buf: &mut Vec<u8>, b: &[u8])
    ensures
        final(buf)@ == old(buf)@ + b@,
{
    let ghost start = buf@;
    let mut i: usize = 0;
    while i < b.len()
        invariant
            i <= b@.len(),
            buf@ == start + b@.subrange(0, i as int),
        decreases b@.len() - i,
    {
        buf.push(b[i]);
        assert(b@.subrange(0, i + 1) =~= b@.subrange(0, i as int).push(b@[i as int]));
        i = i + 1;
    }
    assert(b@.subrange(0, i as int) =~= b@);
}

/// A tree value: children kept in canonical order.
#[derive(Clone, Debug, PartialEq, Eq)]
pub struct Tree {
    children: Vec<Child>,
}

impl View for Tree {
    type V = Seq<ChildView>;

    closed spec fn view(&self) -> Seq<ChildView> {
        self.children@.map_values(|c: Child| c@)
    }
}

impl Tree {
    /// The tree's children hold the canonical order.
    pub open spec fn wf(&self) -> bool {
        canonical(self@)
    }

    /// The tree's children as a map from name to digest and kind.
    pub open spec fn children_map(&self) -> Map<Seq<u8>, (Seq<u8>, NodeType)> {
        child_map(self@)
    }

    /// The empty tree.
    pub fn new() -> (r: Tree)
        ensures
            r.wf(),
            r@.len() == 0,
            r.children_map() == Map::<Seq<u8>, (Seq<u8>, NodeType)>::empty(),
    {
        let r = Tree { children: Vec::new() };
        assert(r@ =~= Seq::<ChildView>::empty());
        assert(r.children_map() =~= Map::<Seq<u8>, (Seq<u8>, NodeType)>::empty());
        r
    }

    /// The number of children.
    pub fn len(&self) -> (r: usize)
        ensures
            r == self@.len(),
    {
        self.children.len()
    }

    /// The position of the first child whose name does not sort before
    /// `key`, and whether that child's name is `key`.
    fn find_slot(&self, key: &[u8]) -> (r: (usize, bool))
        requires
            self.wf(),
        ensures
            r.0 <= self@.len(),
            forall|j: int| 0 <= j < r.0 ==> bytes_lt(#[trigger] self@[j].0, key@),
            r.1 <==> (r.0 < self@.len() && self@[r.0 as int].0 == key@),
            !r.1 && r.0 < self@.len() ==> bytes_lt(key@, self@[r.0 as int].0),
    {
        let mut i: usize = 0;
        while i < self.children.len()
            invariant
                i <= self@.len(),
                self@.len() == self.children@.len(),
                forall|j: int| 0 <= j < i ==> bytes_lt(#[trigger] self@[j].0, key@),
            decreases self.children@.len() - i,
        {
            let c = compare_bytes(self.children[i].name.as_str().as_bytes(), key);
            assert(self@[i as int] == self.children@[i as int]@);
            if c >= 0 {
                proof {
                    lemma_lt_total(key@, self@[i as int].0);
                }
                return (i, c == 0);
            }
            i = i + 1;
        }
        (i, false)
    }

    /// Adds a child, replacing any child of the same name.
    pub fn add_child(&mut self, name: &str, id: &Digest, node_type: NodeType)
        requires
            old(self).wf(),
            valid_name(name.spec_bytes()),
        ensures
            final(self).wf(),
            final(self).children_map() == old(self).children_map().insert(
                name.spec_bytes(),
                (id@, node_type),
            ),
    {
        let ghost s = self@;
        let ghost key = name.spec_bytes();
        let (i, found) = self.find_slot(name.as_bytes());
        let child = Child { name: name.to_owned(), id: *id, node_type };
        let ghost cv = child@;
        assert(cv == (key, id@, node_type));
        if found {
            self.children.remove(i);
            self.children.insert(i, child);
            assert(self@ =~= s.update(i as int, cv));
            proof {
                Self::lemma_after_update(s, i as int, cv);
            }
        } else {
            self.children.insert(i, child);
            assert(self@ =~= s.insert(i as int, cv));
            proof {
                Self::lemma_after_insert(s, i as int, cv);
            }
        }
    }

    proof fn lemma_after_update(s: Seq<ChildView>, i: int, cv: ChildView)
        requires
            canonical(s),
            0 <= i < s.len(),
            s[i].0 == cv.0,
            cv.1.len() == 32,
        ensures
            canonical(s.update(i, cv)),
            child_map(s.update(i, cv)) == child_map(s).insert(cv.0, (cv.1, cv.2)),
    {
        let t = s.update(i, cv);
        assert(canonical(t)) by {
            assert forall|a: int, b: int| 0 <= a < b < t.len() implies bytes_lt(#[trigger] t[a].0, #[trigger] t[b].0) by {
                assert(s[a].0 == t[a].0 && s[b].0 == t[b].0);
            }
            assert forall|a: int| 0 <= a < t.len() implies valid_name(#[trigger] t[a].0) && t[a].1.len() == 32 by {
                assert(s[a].0 == t[a].0);
            }
        }
        let m = child_map(s).insert(cv.0, (cv.1, cv.2));
        assert forall|k: Seq<u8>| #[trigger] child_map(t).contains_key(k) <==> m.contains_key(k) by {
            if child_map(t).contains_key(k) {
                let j = choose|j: int| 0 <= j < t.len() && #[trigger] t[j].0 == k;
                assert(s[j].0 == k);
            }
            if child_map(s).contains_key(k) {
                let j = choose|j: int| 0 <= j < s.len() && #[trigger] s[j].0 == k;
                assert(t[j].0 == k);
            }
            if k == cv.0 {
                assert(t[i].0 == k);
            }
        }
        assert forall|k: Seq<u8>| #[trigger] child_map(t).contains_key(k) implies child_map(t)[k] == m[k] by {
            let j = choose|j: int| 0 <= j < t.len() && #[trigger] t[j].0 == k;
            lemma_map_at(t, j);
            if j != i {
                lemma_map_at(s, j);
                if k == cv.0 {
                    lemma_unique_names(t, i, j);
                }
            }
        }
        assert(child_map(t) =~= m);
    }

    pub proof fn lemma_after_insert(s: Seq<ChildView>, i: int, cv: ChildView)
        requires
            canonical(s),
            0 <= i <= s.len(),
            valid_name(cv.0),
            cv.1.len() == 32,
            forall|j: int| 0 <= j < i ==> bytes_lt(#[trigger] s[j].0, cv.0),
            i < s.len() ==> bytes_lt(cv.0, s[i].0),
        ensures
            canonical(s.insert(i, cv)),
            child_map(s.insert(i, cv)) == child_map(s).insert(cv.0, (cv.1, cv.2)),
    {
        let t = s.insert(i, cv);
        assert forall|a: int| 0 <= a < t.len() implies valid_name(#[trigger] t[a].0) && t[a].1.len() == 32 by {
            if a < i {
                assert(t[a] == s[a]);
                lemma_canonical_at(s, a);
            } else if a > i {
                assert(t[a] == s[a - 1]);
            } else {
                assert(t[a] == cv);
            }
        }
        assert forall|a: int, b: int| 0 <= a < b < t.len() implies bytes_lt(#[trigger] t[a].0, #[trigger] t[b].0) by {
            if b < i {
            } else if b == i {
                assert(bytes_lt(s[a].0, cv.0));
            } else if a < i {
                assert(t[b] == s[b - 1]);
                lemma_lt_transitive(s[a].0, cv.0, s[i].0);
                if b - 1 > i {
                    lemma_lt_transitive(s[a].0, s[i].0, s[b - 1].0);
                }
            } else if a == i {
                assert(t[b] == s[b - 1]);
                if b - 1 > i {
                    lemma_lt_transitive(cv.0, s[i].0, s[b - 1].0);
                }
            } else {
                assert(t[a] == s[a - 1] && t[b] == s[b - 1]);
            }
        }
        assert(canonical(t));
        let m = child_map(s).insert(cv.0, (cv.1, cv.2));
        assert forall|k: Seq<u8>| #[trigger] child_map(t).contains_key(k) <==> m.contains_key(k) by {
            if child_map(t).contains_key(k) {
                let j = choose|j: int| 0 <= j < t.len() && #[trigger] t[j].0 == k;
                if j < i {
                    assert(s[j].0 == k);
                } else if j > i {
                    assert(s[j - 1].0 == k);
                }
            }
            if child_map(s).contains_key(k) {
                let j = choose|j: int| 0 <= j < s.len() && #[trigger] s[j].0 == k;
                if j < i {
                    assert(t[j].0 == k);
                } else {
                    assert(t[j + 1].0 == k);
                }
            }
            if k == cv.0 {
                assert(t[i].0 == k);
            }
        }
        assert forall|k: Seq<u8>| #[trigger] child_map(t).contains_key(k) implies child_map(t)[k] == m[k] by {
            let j = choose|j: int| 0 <= j < t.len() && #[trigger] t[j].0 == k;
            lemma_map_at(t, j);
            if j < i {
                lemma_map_at(s, j);
                if k == cv.0 {
                    lemma_unique_names(t, i, j);
                }
            } else if j > i {
                lemma_map_at(s, j - 1);
                if k == cv.0 {
                    lemma_unique_names(t, i, j);
                }
            }
        }
        assert(child_map(t) =~= m);
    }

    /// The child named `name`, if there is one.
    pub fn get_child(&self, name: &str) -> (r: Option<Child>)
        requires
            self.wf(),
        ensures
            r.is_none() <==> !self.children_map().contains_key(name.spec_bytes()),
            r matches Some(c) ==> c@ == (
                name.spec_bytes(),
                self.children_map()[name.spec_bytes()].0,
                self.children_map()[name.spec_bytes()].1,
            ),
    {
        let (i, found) = self.find_slot(name.as_bytes());
        if found {
            let c = &self.children[i];
            proof {
                assert(self@[i as int] == c@);
                lemma_map_at(self@, i as int);
            }
            Some(Child { name: c.name.clone(), id: c.id, node_type: c.node_type })
        } else {
            proof {
                if self.children_map().contains_key(name.spec_bytes()) {
                    let j = position_of(self@, name.spec_bytes());
                    if j < i {
                        lemma_lt_irreflexive(name.spec_bytes());
                    } else if j > i {
                        lemma_lt_asymmetric(self@[i as int].0, name.spec_bytes());
                    }
                }
            }
            None
        }
    }

    /// The children, in canonical order.
    pub fn iter(&self) -> (r: Vec<Child>)
        ensures
            r@.map_values(|c: Child| c@) == self@,
    {
        let mut r: Vec<Child> = Vec::new();
        let mut i: usize = 0;
        while i < self.children.len()
            invariant
                i <= self.children@.len(),
                self@.len() == self.children@.len(),
                r@.map_values(|c: Child| c@) == self@.subrange(0, i as int),
            decreases self.children@.len() - i,
        {
            let c = &self.children[i];
            let nc = Child { name: c.name.clone(), id: c.id, node_type: c.node_type };
            assert(nc@ == c@);
            assert(self@[i as int] == c@);
            let ghost before = r@;
            r.push(nc);
            assert(r@ == before.push(nc));
            assert(before.map_values(|c: Child| c@).push(nc@) =~= r@.map_values(|c: Child| c@));
            assert(r@.map_values(|c: Child| c@) =~= self@.subrange(0, i + 1));
            i = i + 1;
        }
        assert(self@.subrange(0, i as int) =~= self@);
        r
    }

    /// The bytes that identify this tree under the tree digest: each child's
    /// frame, in canonical order.
    pub fn frame(&self) -> (r: Vec<u8>)
        ensures
            r@ == tree_frame(self@),
    {
        let mut buf: Vec<u8> = Vec::new();
        let mut i: usize = 0;
        assert(self@.subrange(0, 0) =~= Seq::<ChildView>::empty());
        while i < self.children.len()
            invariant
                i <= self.children@.len(),
                self@.len() == self.children@.len(),
                buf@ == tree_frame(self@.subrange(0, i as int)),
            decreases self.children@.len() - i,
        {
            let c = &self.children[i];
            let ghost before = buf@;
            append_bytes(&mut buf, c.id.bytes.as_slice());
            let kind: [u8; 2] = match c.node_type {
                NodeType::Blob { executable: false } => [0u8, 0u8],
                NodeType::Blob { executable: true } => [0u8, 1u8],
                NodeType::Tree => [1u8, 0u8],
            };
            assert(kind@ =~= kind_bytes(c.node_type));
            append_bytes(&mut buf, kind.as_slice());
            append_bytes(&mut buf, c.name.as_str().as_bytes());
            buf.push(NUL);
            proof {
                assert(self@[i as int] == c@);
                assert(buf@ =~= before + child_frame(c@));
                lemma_frame_push(self@.subrange(0, i as int), c@);
                assert(self@.subrange(0, i + 1) =~= self@.subrange(0, i as int).push(c@));
            }
            i = i + 1;
        }
        assert(self@.subrange(0, i as int) =~= self@);
        buf
    }

    /// The digest that identifies this tree.
    pub fn id(&self) -> (r: Digest)
        ensures
            r@ == tree_digest(self@),
    {
        let f = self.frame();
        Digest::derive(TREE_ID_CONTEXT, f.as_slice())
    }
}

/// Dropping the first child of a canonical sequence keeps it canonical and
/// removes that child's name from the map.
pub proof fn lemma_map_drop_first(s: Seq<ChildView>)
    requires
        canonical(s),
        s.len() > 0,
    ensures
        canonical(s.drop_first()),
        child_map(s.drop_first()) == child_map(s).remove(s[0].0),
{
    let t = s.drop_first();
    assert forall|a: int, b: int| 0 <= a < b < t.len() implies bytes_lt(#[trigger] t[a].0, #[trigger] t[b].0) by {
        assert(t[a] == s[a + 1] && t[b] == s[b + 1]);
    }
    assert forall|a: int| 0 <= a < t.len() implies valid_name(#[trigger] t[a].0) && t[a].1.len() == 32 by {
        assert(t[a] == s[a + 1]);
    }
    let m = child_map(s).remove(s[0].0);
    assert forall|k: Seq<u8>| #[trigger] child_map(t).contains_key(k) <==> m.contains_key(k) by {
        if child_map(t).contains_key(k) {
            let j = position_of(t, k);
            assert(s[j + 1].0 == k);
            if k == s[0].0 {
                lemma_unique_names(s, 0, j + 1);
            }
        }
        if m.contains_key(k) {
            let j = position_of(s, k);
            assert(j != 0);
            assert(t[j - 1].0 == k);
        }
    }
    assert forall|k: Seq<u8>| #[trigger] child_map(t).contains_key(k) implies child_map(t)[k] == m[k] by {
        let j = position_of(t, k);
        lemma_map_at(t, j);
        assert(t[j] == s[j + 1]);
        lemma_map_at(s, j + 1);
    }
    assert(child_map(t) =~= m);
}

/// Canonical order is unique: two canonical child sequences with the same
/// map from name to digest and kind are the same sequence.
pub proof fn lemma_canonical_unique(s1: Seq<ChildView>, s2: Seq<ChildView>)
    requires
        canonical(s1),
        canonical(s2),
        child_map(s1) == child_map(s2),
    ensures
        s1 == s2,
    decreases s1.len(),
{
    if s1.len() == 0 || s2.len() == 0 {
        if s1.len() > 0 {
            lemma_map_at(s1, 0);
            assert(child_map(s2).contains_key(s1[0].0));
        }
        if s2.len() > 0 {
            lemma_map_at(s2, 0);
            assert(child_map(s1).contains_key(s2[0].0));
        }
        assert(s1 =~= s2);
    } else {
        let a = s1[0].0;
        let b = s2[0].0;
        lemma_map_at(s1, 0);
        lemma_map_at(s2, 0);
        let i = position_of(s1, b);
        let j = position_of(s2, a);
        if a != b {
            assert(i != 0);
            assert(j != 0);
            assert(bytes_lt(s1[0].0, s1[i].0));
            assert(bytes_lt(s2[0].0, s2[j].0));
            lemma_lt_asymmetric(a, b);
        }
        assert(s1[0] == s2[0]);
        lemma_map_drop_first(s1);
        lemma_map_drop_first(s2);
        lemma_canonical_unique(s1.drop_first(), s2.drop_first());
        assert(s1 =~= seq![s1[0]] + s1.drop_first());
        assert(s2 =~= seq![s2[0]] + s2.drop_first());
    }
}

/// Determinism: the digest of a tree is a function of its children, so two
/// computations over equal children give equal digests.
pub proof fn lemma_digest_deterministic(t1: Tree, t2: Tree)
    requires
        t1@ == t2@,
    ensures
        tree_digest(t1@) == tree_digest(t2@),
{
}

/// Canonical order: the digest depends only on which children a tree holds
/// (its map from name to digest and kind), not on the order in which they
/// were added.
pub proof fn lemma_digest_order_free(t1: Tree, t2: Tree)
    requires
        t1.wf(),
        t2.wf(),
        t1.children_map() == t2.children_map(),
    ensures
        t1@ == t2@,
        tree_digest(t1@) == tree_digest(t2@),
{
    lemma_canonical_unique(t1@, t2@);
}

/// Adding two children of distinct names in either order yields the same
/// map, and so, by the law above, the same digest.
pub proof fn lemma_add_commutes(
    m: Map<Seq<u8>, (Seq<u8>, NodeType)>,
    k1: Seq<u8>,
    v1: (Seq<u8>, NodeType),
    k2: Seq<u8>,
    v2: (Seq<u8>, NodeType),
)
    requires
        k1 != k2,
    ensures
        m.insert(k1, v1).insert(k2, v2) == m.insert(k2, v2).insert(k1, v1),
{
    assert(m.insert(k1, v1).insert(k2, v2) =~= m.insert(k2, v2).insert(k1, v1));
}

/// The encoding of node kinds is injective.
pub proof fn lemma_kind_bytes_injective(k1: NodeType, k2: NodeType)
    requires
        kind_bytes(k1) == kind_bytes(k2),
    ensures
        k1 == k2,
{
    assert(kind_bytes(k1)[0] == kind_bytes(k2)[0]);
    assert(kind_bytes(k1)[1] == kind_bytes(k2)[1]);
}

/// Name sensitivity of the digest input: distinct canonical child sequences
/// frame to distinct byte strings. Changing a byte of a name or of a digest,
/// or the executable bit, therefore changes the bytes that are hashed.
pub proof fn lemma_frame_injective(s1: Seq<ChildView>, s2: Seq<ChildView>)
    requires
        canonical(s1),
        canonical(s2),
        tree_frame(s1) == tree_frame(s2),
    ensures
        s1 == s2,
    decreases s1.len(),
{
    if s1.len() == 0 || s2.len() == 0 {
        assert(s1.len() == 0 ==> tree_frame(s1).len() == 0);
        assert(s2.len() == 0 ==> tree_frame(s2).len() == 0);
        assert(s1 =~= s2);
    } else {
        let a = s1[0];
        let b = s2[0];
        let f = tree_frame(s1);
        let fa = child_frame(a);
        let fb = child_frame(b);
        assert(f == fa + tree_frame(s1.drop_first()));
        assert(f == fb + tree_frame(s2.drop_first()));
        let na: int = a.0.len() as int;
        let nb: int = b.0.len() as int;
        assert(valid_name(a.0) && a.1.len() == 32);
        assert(valid_name(b.0) && b.1.len() == 32);
        assert(fa.len() == 35 + na);
        assert(fb.len() == 35 + nb);
        assert(fa[34 + na] == NUL);
        assert(fb[34 + nb] == NUL);
        if na < nb {
            assert(f[34 + na] == fa[34 + na]);
            assert(f[34 + na] == fb[34 + na]);
            assert(fb[34 + na] == b.0[na]);
        }
        if nb < na {
            assert(f[34 + nb] == fb[34 + nb]);
            assert(f[34 + nb] == fa[34 + nb]);
            assert(fa[34 + nb] == a.0[nb]);
        }
        assert(na == nb);
        assert(fa =~= f.subrange(0, 35 + na));
        assert(fb =~= f.subrange(0, 35 + nb));
        assert(a.1 =~= fa.subrange(0, 32));
        assert(b.1 =~= fb.subrange(0, 32));
        assert(kind_bytes(a.2) =~= fa.subrange(32, 34));
        assert(kind_bytes(b.2) =~= fb.subrange(32, 34));
        lemma_kind_bytes_injective(a.2, b.2);
        assert(a.0 =~= fa.subrange(34, 34 + na));
        assert(b.0 =~= fb.subrange(34, 34 + nb));
        assert(a == b);
        assert(tree_frame(s1.drop_first()) =~= f.skip(35 + na));
        assert(tree_frame(s2.drop_first()) =~= f.skip(35 + nb));
        lemma_map_drop_first(s1);
        lemma_map_drop_first(s2);
        lemma_frame_injective(s1.drop_first(), s2.drop_first());
        assert(s1 =~= seq![s1[0]] + s1.drop_first());
        assert(s2 =~= seq![s2[0]] + s2.drop_first());
    }
}

} // verus!
