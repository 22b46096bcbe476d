//! The data model of the engine: entries, directory references, sharded
//! trie nodes, and the two kinds of content-addressed blobs.
//!
//! A directory's contents are a mapping from child name (a byte string) to
//! an [`Entry`].  The mapping is stored as a persistent sharded trie: a
//! [`MapNode::Leaf`] holds a small sorted run of entries directly, while a
//! [`MapNode::Branch`] splits a large fan-out by the first byte of the key,
//! each child being an unresolved edge reference (a blob id) that is loaded
//! from the store on demand.

use vstd::prelude::*;

use crate::keys::key_cmp;
use crate::keys::key_lt;

verus! {

/// The kind of a changed file.  The skeleton manifest records presence
/// only, so the type is carried by changes but not stored in the tree.
#[derive(Clone, Copy, PartialEq, Eq, Structural, Debug)]
pub enum FileType {
    Regular,
    Executable,
    Symlink,
}

/// A reference to a directory node: its content address together with its
/// rollup count, carried alongside the id so that parents can account for
/// a whole subtree without loading it.
#[derive(Clone, Copy, PartialEq, Eq, Structural, Debug)]
pub struct DirPtr {
    /// Content address of the directory blob in the store.
    pub id: usize,
    /// One for the directory itself plus the contribution of every
    /// descendant file and directory.
    pub rollup: u64,
}

/// One child of a directory: a file (presence only) or a subdirectory.
#[derive(Clone, Copy, PartialEq, Eq, Structural, Debug)]
pub enum Entry {
    File,
    Directory(DirPtr),
}

/// How many entries a single trie node may hold directly before it is
/// split into separately stored shards.
pub const SHARD_CAP: usize = 4;

/// One node of the persistent sharded trie.
///
/// A `Leaf` materializes a small key range as a sorted list.  A `Branch`
/// covers a large range: `here` holds the entry whose key is exhausted at
/// this depth, and `children` maps each next byte to the blob id of a
/// separately stored child node whose keys have that byte stripped.
#[derive(Clone, Debug)]
pub enum MapNode {
    Leaf { entries: Vec<(Vec<u8>, Entry)> },
    Branch { count: u64, here: Option<Entry>, children: Vec<(u8, usize)> },
}

/// A content-addressed blob: a directory node (its subentry trie root and
/// its rollup count), or a trie fragment referenced by an edge.
#[derive(Clone, Debug)]
pub enum Blob {
    Dir { map: MapNode, rollup: u64 },
    Frag { map: MapNode },
}

/// The trie root held by a blob, for either blob kind.
pub open spec fn blob_map(b: Blob) -> MapNode {
    match b {
        Blob::Dir { map, rollup } => map,
        Blob::Frag { map } => map,
    }
}

/// The flat view of a leaf's entry list: each name as a byte sequence.
pub open spec fn entries_view(s: Seq<(Vec<u8>, Entry)>) -> Seq<(Seq<u8>, Entry)> {
    s.map_values(|p: (Vec<u8>, Entry)| (p.0@, p.1))
}

/// Structural equality of trie nodes, compared over views.
pub open spec fn node_eqv(a: MapNode, b: MapNode) -> bool {
    match (a, b) {
        (MapNode::Leaf { entries: e1 }, MapNode::Leaf { entries: e2 }) => entries_view(e1@)
            == entries_view(e2@),
        (
            MapNode::Branch { count: c1, here: h1, children: ch1 },
            MapNode::Branch { count: c2, here: h2, children: ch2 },
        ) => c1 == c2 && h1 == h2 && ch1@ == ch2@,
        _ => false,
    }
}

/// Structural equality of blobs, compared over views.  Two blobs with
/// equal views serialize identically, so they share a content address.
pub open spec fn blob_eqv(a: Blob, b: Blob) -> bool {
    match (a, b) {
        (Blob::Dir { map: m1, rollup: r1 }, Blob::Dir { map: m2, rollup: r2 }) => r1 == r2
            && node_eqv(m1, m2),
        (Blob::Frag { map: m1 }, Blob::Frag { map: m2 }) => node_eqv(m1, m2),
        _ => false,
    }
}

fn entry_opt_eq(a: &Option<Entry>, b: &Option<Entry>) -> (r: bool)
    ensures
        r <==> *a == *b,
{
    match (a, b) {
        (Option::Some(x), Option::Some(y)) => *x == *y,
        (Option::None, Option::None) => true,
        _ => false,
    }
}

fn leaf_entries_eq(a: &Vec<(Vec<u8>, Entry)>, b: &Vec<(Vec<u8>, Entry)>) -> (r: bool)
    ensures
        r <==> entries_view(a@) == entries_view(b@),
{
    if a.len() != b.len() {
        proof {
            assert(entries_view(a@).len() != entries_view(b@).len());
        }
        return false;
    }
    let mut i: usize = 0;
    while i < a.len()
        invariant
            0 <= i <= a@.len(),
            a@.len() == b@.len(),
            forall|k: int| 0 <= k < i ==> entries_view(a@)[k] == entries_view(b@)[k],
        decreases a@.len() - i,
    {
        let ka = &a[i].0;
        let kb = &b[i].0;
        if key_cmp(ka, kb) != 0 {
            proof {
                assert(entries_view(a@)[i as int].0 != entries_view(b@)[i as int].0);
            }
            return false;
        }
        if a[i].1 != b[i].1 {
            proof {
                assert(entries_view(a@)[i as int].1 != entries_view(b@)[i as int].1);
            }
            return false;
        }
        proof {
            assert(entries_view(a@)[i as int] == entries_view(b@)[i as int]);
        }
        i = i + 1;
    }
    proof {
        assert(entries_view(a@) =~= entries_view(b@));
    }
    true
}

fn children_eq(a: &Vec<(u8, usize)>, b: &Vec<(u8, usize)>) -> (r: bool)
    ensures
        r <==> a@ == b@,
{
    if a.len() != b.len() {
        return false;
    }
    let mut i: usize = 0;
    while i < a.len()
        invariant
            0 <= i <= a@.len(),
            a@.len() == b@.len(),
            forall|k: int| 0 <= k < i ==> a@[k] == b@[k],
        decreases a@.len() - i,
    {
        if a[i].0 != b[i].0 || a[i].1 != b[i].1 {
            proof {
                assert(a@[i as int] != b@[i as int]);
            }
            return false;
        }
        i = i + 1;
    }
    proof {
        assert(a@ =~= b@);
    }
    true
}

/// Structural equality of trie nodes, decided without loading anything:
/// child shards are compared by content address alone.
pub fn node_eq(a: &MapNode, b: &MapNode) -> (r: bool)
    ensures
        r <==> node_eqv(*a, *b),
{
    match (a, b) {
        (MapNode::Leaf { entries: e1 }, MapNode::Leaf { entries: e2 }) => leaf_entries_eq(e1, e2),
        (
            MapNode::Branch { count: c1, here: h1, children: ch1 },
            MapNode::Branch { count: c2, here: h2, children: ch2 },
        ) => *c1 == *c2 && entry_opt_eq(h1, h2) && children_eq(ch1, ch2),
        _ => false,
    }
}

/// Structural equality of blobs; the interning test of the store.
pub fn blob_eq(a: &Blob, b: &Blob) -> (r: bool)
    ensures
        r <==> blob_eqv(*a, *b),
{
    match (a, b) {
        (Blob::Dir { map: m1, rollup: r1 }, Blob::Dir { map: m2, rollup: r2 }) => *r1 == *r2
            && node_eq(m1, m2),
        (Blob::Frag { map: m1 }, Blob::Frag { map: m2 }) => node_eq(m1, m2),
        _ => false,
    }
}

/// Structural blob equality is symmetric.
pub proof fn lemma_blob_eqv_sym(a: Blob, b: Blob)
    requires
        blob_eqv(a, b),
    ensures
        blob_eqv(b, a),
{
}

/// The contribution of one entry to its parent's rollup count: a file
/// counts one, a directory its whole rollup.
pub open spec fn entry_weight(e: Entry) -> int {
    match e {
        Entry::File => 1,
        Entry::Directory(p) => p.rollup as int,
    }
}

/// Keys strictly increasing: each key occurs once and in order.
pub open spec fn sorted_strict(s: Seq<(Seq<u8>, Entry)>) -> bool {
    forall|i: int, j: int| 0 <= i < j < s.len() ==> key_lt(s[i].0, s[j].0)
}

/// The payload of a change that adds or replaces a file: a content
/// reference and a file type.  This manifest records presence only, so the
/// payload is accepted and then dropped at the leaf.
#[derive(Clone, Copy, PartialEq, Eq, Structural, Debug)]
pub struct FileChange {
    pub content: u64,
    pub file_type: FileType,
}

/// One changed key of a changeset: the path in the engine's key space (a
/// non-empty list of non-empty name components) and, when present, the new
/// file payload; absence means deletion.
pub struct Change {
    pub key: Vec<Vec<u8>>,
    pub payload: Option<FileChange>,
}

/// The path of a change as a sequence of byte-string components.
pub open spec fn path_view(k: Seq<Vec<u8>>) -> Seq<Seq<u8>> {
    k.map_values(|c: Vec<u8>| c@)
}

/// Lexicographic order on paths, component by component.
pub open spec fn path_lt(a: Seq<Seq<u8>>, b: Seq<Seq<u8>>) -> bool
    decreases a.len(),
{
    if b.len() == 0 {
        false
    } else if a.len() == 0 {
        true
    } else if key_lt(a[0], b[0]) {
        true
    } else if a[0] == b[0] {
        path_lt(a.drop_first(), b.drop_first())
    } else {
        false
    }
}

/// `a` is a proper prefix of `b`.
pub open spec fn path_prefix(a: Seq<Seq<u8>>, b: Seq<Seq<u8>>) -> bool {
    a.len() < b.len() && a == b.subrange(0, a.len() as int)
}

/// The changes handed to the engine: every key non-empty with non-empty
/// components, strictly sorted, and no key a prefix of another.
pub open spec fn changes_wf(cs: Seq<Change>) -> bool {
    &&& forall|i: int| 0 <= i < cs.len() ==> (#[trigger] cs[i].key)@.len() > 0
    &&& forall|i: int, c: int|
        0 <= i < cs.len() && 0 <= c < cs[i].key@.len() ==> (#[trigger] cs[i].key@[c])@.len() > 0
    &&& forall|i: int, j: int|
        0 <= i < j < cs.len() ==> path_lt(
            path_view(#[trigger] cs[i].key@),
            path_view(#[trigger] cs[j].key@),
        )
    &&& forall|i: int, j: int|
        0 <= i < cs.len() && 0 <= j < cs.len() && i != j ==> !path_prefix(
            path_view(#[trigger] cs[i].key@),
            path_view(#[trigger] cs[j].key@),
        )
}

/// Some change touches this child name: its path starts with it.
pub open spec fn touched(cs: Seq<Change>, name: Seq<u8>) -> bool {
    exists|i: int| 0 <= i < cs.len() && (#[trigger] cs[i].key)@.len() > 0 && cs[i].key@[0]@ == name
}

} // verus!
