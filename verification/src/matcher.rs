//! Path matching against a derived manifest: walks a path's components
//! through the stored directory tree, resolving shard edges only along the
//! way, and classifies the outcome for directory traversal and for file
//! membership.

use vstd::prelude::*;

use crate::merge::dir_flat;
use crate::merge::dir_ptr_ok;
use crate::merge::lemma_dir_rollup_equation;
use crate::node::Blob;
use crate::node::DirPtr;
use crate::node::Entry;
use crate::node::MapNode;
use crate::node::blob_map;
use crate::shard::flat_get;
use crate::shard::map_get;
use crate::store::Store;
use crate::store::store_wf;

verus! {

/// What a directory lookup means for a traversal.
#[derive(Clone, Copy, PartialEq, Eq, Structural, Debug)]
pub enum DirectoryMatch {
    /// The path is a directory of the manifest: walk into it.
    ShouldTraverse,
    /// Nothing under this path can match.
    Nothing,
}

/// The entry a path leads to: each component is looked up in the current
/// directory, and only a directory entry can be walked further.
pub open spec fn path_get(s: Seq<Blob>, p: DirPtr, path: Seq<Seq<u8>>) -> Option<Entry>
    decreases path.len(),
{
    if path.len() == 0 {
        Option::Some(Entry::Directory(p))
    } else {
        match flat_get(dir_flat(s, p), path[0]) {
            Option::None => Option::None,
            Option::Some(Entry::File) => if path.len() == 1 {
                Option::Some(Entry::File)
            } else {
                Option::None
            },
            Option::Some(Entry::Directory(p2)) => path_get(s, p2, path.drop_first()),
        }
    }
}

/// Resolves a path against a manifest root.
pub fn path_lookup(st: &Store, root: DirPtr, path: &Vec<Vec<u8>>) -> (r: Option<Entry>)
    requires
        store_wf(*st),
        dir_ptr_ok(st.blobs@, root),
    ensures
        r == path_get(st.blobs@, root, crate::node::path_view(path@)),
{
    let mut cur: DirPtr = root;
    let mut i: usize = 0;
    let ghost pv = crate::node::path_view(path@);
    proof {
        assert(pv.subrange(0, pv.len() as int) =~= pv);
    }
    while i < path.len()
        invariant
            0 <= i <= path@.len(),
            pv == crate::node::path_view(path@),
            store_wf(*st),
            dir_ptr_ok(st.blobs@, cur),
            path_get(st.blobs@, root, pv) == path_get(st.blobs@, cur, pv.subrange(
                i as int,
                pv.len() as int,
            )),
        decreases path@.len() - i,
    {
        proof {
            lemma_dir_rollup_equation(st.blobs@, cur);
        }
        let blob = st.get(cur.id);
        let m: &MapNode = match blob {
            Blob::Dir { map, rollup } => map,
            Blob::Frag { map } => map,
        };
        let e = map_get(st, m, cur.id, &path[i]);
        proof {
            let rest = pv.subrange(i as int, pv.len() as int);
            assert(rest[0] == pv[i as int]);
            assert(rest.drop_first() =~= pv.subrange(i + 1, pv.len() as int));
            assert(e == flat_get(dir_flat(st.blobs@, cur), pv[i as int]));
        }
        match e {
            Option::None => {
                return Option::None;
            },
            Option::Some(Entry::File) => {
                if i + 1 == path.len() {
                    proof {
                        assert(pv.subrange(i + 1, pv.len() as int).len() == 0);
                    }
                    return Option::Some(Entry::File);
                }
                return Option::None;
            },
            Option::Some(Entry::Directory(p2)) => {
                proof {
                    crate::merge::lemma_get_entry_ok(
                        st.blobs@,
                        dir_flat(st.blobs@, cur),
                        pv[i as int],
                        cur.id as int,
                    );
                }
                cur = p2;
            },
        }
        i = i + 1;
    }
    proof {
        assert(pv.subrange(pv.len() as int, pv.len() as int).len() == 0);
    }
    Option::Some(Entry::Directory(cur))
}

/// Matches paths against one derived manifest.  Keys of this manifest are
/// plain byte strings, which carry no case, so the sensitivity flag only
/// records the caller's configuration.
pub struct ManifestMatcher {
    pub manifest: DirPtr,
    pub case_sensitive: bool,
}

impl ManifestMatcher {
    pub fn new(manifest: DirPtr, case_sensitive: bool) -> (r: ManifestMatcher)
        ensures
            r.manifest == manifest,
            r.case_sensitive == case_sensitive,
    {
        ManifestMatcher { manifest, case_sensitive }
    }

    /// Whether a traversal should descend into this path: only when the
    /// manifest holds a directory there.
    pub fn matches_directory(&self, st: &Store, path: &Vec<Vec<u8>>) -> (r: DirectoryMatch)
        requires
            store_wf(*st),
            dir_ptr_ok(st.blobs@, self.manifest),
        ensures
            r == (match path_get(st.blobs@, self.manifest, crate::node::path_view(path@)) {
                Option::Some(Entry::Directory(p2)) => DirectoryMatch::ShouldTraverse,
                _ => DirectoryMatch::Nothing,
            }),
    {
        match path_lookup(st, self.manifest, path) {
            Option::Some(Entry::Directory(p2)) => DirectoryMatch::ShouldTraverse,
            Option::Some(Entry::File) => DirectoryMatch::Nothing,
            Option::None => DirectoryMatch::Nothing,
        }
    }

    /// Whether the manifest holds a file at exactly this path.
    pub fn matches_file(&self, st: &Store, path: &Vec<Vec<u8>>) -> (r: bool)
        requires
            store_wf(*st),
            dir_ptr_ok(st.blobs@, self.manifest),
        ensures
            r == (path_get(st.blobs@, self.manifest, crate::node::path_view(path@)) == Option::Some(
                Entry::File,
            )),
    {
        match path_lookup(st, self.manifest, path) {
            Option::Some(Entry::File) => true,
            Option::Some(Entry::Directory(p2)) => false,
            Option::None => false,
        }
    }
}

} // verus!
