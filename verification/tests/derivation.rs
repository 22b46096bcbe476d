use bssm::derive::rollup_recount;
use bssm::matcher::path_lookup;
use bssm::merge::EngineError;
use bssm::node::Change;
use bssm::node::DirPtr;
use bssm::node::Entry;
use bssm::node::FileChange;
use bssm::node::FileType;
use bssm::store::Store;

fn key(s: &str) -> Vec<u8> {
    s.as_bytes().to_vec()
}

fn path(parts: &[&str]) -> Vec<Vec<u8>> {
    parts.iter().map(|p| key(p)).collect()
}

fn add(parts: &[&str]) -> Change {
    Change {
        key: path(parts),
        payload: Some(FileChange { content: 7, file_type: FileType::Regular }),
    }
}

fn del(parts: &[&str]) -> Change {
    Change { key: path(parts), payload: None }
}

fn lookup(st: &Store, root: DirPtr, parts: &[&str]) -> Option<Entry> {
    path_lookup(st, root, &path(parts))
}

#[test]
fn empty_repository_root() {
    let mut st = Store::new();
    let root = bssm::derive::derive(&mut st, &vec![], &vec![]).unwrap();
    assert_eq!(root.rollup, 1);
    assert_eq!(rollup_recount(&st, root), 1);
    assert_eq!(lookup(&st, root, &["anything"]), None);
    assert!(st.is_durable(root.id));
}

#[test]
fn single_file_tree() {
    let mut st = Store::new();
    let root = bssm::derive::derive(&mut st, &vec![], &vec![add(&["a"])]).unwrap();
    assert_eq!(root.rollup, 2);
    assert_eq!(lookup(&st, root, &["a"]), Some(Entry::File));
    assert_eq!(rollup_recount(&st, root), 2);
}

#[test]
fn rollup_example_parent_five() {
    // parent with files a, b/c, b/d: 1 (root) + 1 (a) + 1 (b) + 2 (c, d)
    let mut st = Store::new();
    let parent = bssm::derive::derive(
        &mut st,
        &vec![],
        &vec![add(&["a"]), add(&["b", "c"]), add(&["b", "d"])],
    )
    .unwrap();
    assert_eq!(parent.rollup, 5);
    assert_eq!(rollup_recount(&st, parent), 5);

    // delete b/c and add e: count stays 5, b keeps only d
    let root = bssm::derive::derive(&mut st, &vec![parent], &vec![del(&["b", "c"]), add(&["e"])]).unwrap();
    assert_eq!(root.rollup, 5);
    assert_eq!(rollup_recount(&st, root), 5);
    assert_eq!(lookup(&st, root, &["b", "c"]), None);
    assert_eq!(lookup(&st, root, &["b", "d"]), Some(Entry::File));
    assert_eq!(lookup(&st, root, &["e"]), Some(Entry::File));
    match lookup(&st, root, &["b"]) {
        Some(Entry::Directory(b)) => assert_eq!(b.rollup, 2),
        other => panic!("b is not a directory: {:?}", other),
    }
}

#[test]
fn deriving_twice_is_identical() {
    let mut st = Store::new();
    let parent = bssm::derive::derive(&mut st, &vec![], &vec![add(&["a"]), add(&["b", "c"])]).unwrap();
    let changes = || vec![del(&["b", "c"]), add(&["d"])];
    let first = bssm::derive::derive(&mut st, &vec![parent], &changes()).unwrap();
    let second = bssm::derive::derive(&mut st, &vec![parent], &changes()).unwrap();
    assert_eq!(first.id, second.id);
    assert_eq!(first.rollup, second.rollup);
}

#[test]
fn untouched_sibling_shares_address() {
    let mut st = Store::new();
    let parent = bssm::derive::derive(
        &mut st,
        &vec![],
        &vec![add(&["a", "b", "x"]), add(&["a", "c", "y"]), add(&["top"])],
    )
    .unwrap();
    let root = bssm::derive::derive(&mut st, &vec![parent], &vec![add(&["a", "b", "z"])]).unwrap();

    // the touched branch differs, the sibling subtree keeps its address
    let old_ac = match lookup(&st, parent, &["a", "c"]) {
        Some(Entry::Directory(p)) => p,
        other => panic!("a/c missing in parent: {:?}", other),
    };
    let new_ac = match lookup(&st, root, &["a", "c"]) {
        Some(Entry::Directory(p)) => p,
        other => panic!("a/c missing in result: {:?}", other),
    };
    assert_eq!(old_ac.id, new_ac.id);
    assert_eq!(old_ac.rollup, new_ac.rollup);
    // the untouched top-level file is still there
    assert_eq!(lookup(&st, root, &["top"]), Some(Entry::File));
    assert_eq!(lookup(&st, root, &["a", "b", "z"]), Some(Entry::File));
    assert_eq!(rollup_recount(&st, root), root.rollup);
}

#[test]
fn deleting_only_file_removes_directory() {
    let mut st = Store::new();
    let parent = bssm::derive::derive(&mut st, &vec![], &vec![add(&["a"]), add(&["b", "c"])]).unwrap();
    assert_eq!(parent.rollup, 4);
    let root = bssm::derive::derive(&mut st, &vec![parent], &vec![del(&["b", "c"])]).unwrap();
    assert_eq!(lookup(&st, root, &["b"]), None);
    assert_eq!(lookup(&st, root, &["b", "c"]), None);
    assert_eq!(root.rollup, 2);
    assert_eq!(rollup_recount(&st, root), 2);
}

#[test]
fn deleting_everything_yields_empty_root() {
    let mut st = Store::new();
    let parent = bssm::derive::derive(&mut st, &vec![], &vec![add(&["only"])]).unwrap();
    let root = bssm::derive::derive(&mut st, &vec![parent], &vec![del(&["only"])]).unwrap();
    assert_eq!(root.rollup, 1);
    // identical to the canonical empty root of an empty derivation
    let mut st2 = Store::new();
    let empty = bssm::derive::derive(&mut st2, &vec![], &vec![]).unwrap();
    assert_eq!(root.rollup, empty.rollup);
}

#[test]
fn merge_with_resolved_divergence() {
    let mut st = Store::new();
    let base = vec![add(&["shared", "deep"]), add(&["stable"])];
    let p1 = bssm::derive::derive(&mut st, &vec![], &base).unwrap();
    let p1b = bssm::derive::derive(&mut st, &vec![p1], &vec![add(&["left"])]).unwrap();
    let p2b = bssm::derive::derive(&mut st, &vec![p1], &vec![add(&["right"])]).unwrap();

    // the changeset resolves both divergent paths explicitly
    let root = bssm::derive::derive(
        &mut st,
        &vec![p1b, p2b],
        &vec![add(&["left"]), add(&["right"])],
    )
    .unwrap();
    // root + shared + deep + stable + left + right
    assert_eq!(root.rollup, 6);
    assert_eq!(rollup_recount(&st, root), 6);
    assert_eq!(lookup(&st, root, &["left"]), Some(Entry::File));
    assert_eq!(lookup(&st, root, &["right"]), Some(Entry::File));
    assert_eq!(lookup(&st, root, &["shared", "deep"]), Some(Entry::File));
}

#[test]
fn merge_with_unresolved_divergence_fails() {
    let mut st = Store::new();
    let p0 = bssm::derive::derive(&mut st, &vec![], &vec![add(&["base"])]).unwrap();
    let p1 = bssm::derive::derive(&mut st, &vec![p0], &vec![add(&["left"])]).unwrap();
    let p2 = bssm::derive::derive(&mut st, &vec![p0], &vec![add(&["right"])]).unwrap();
    let r = bssm::derive::derive(&mut st, &vec![p1, p2], &vec![]);
    assert_eq!(r, Err(EngineError::UnresolvedDivergence));
}

#[test]
fn large_directory_shards_and_reads_back() {
    // more names than one trie node holds directly, with shared prefixes
    let names = [
        "alpha", "alps", "ant", "app", "apple", "apricot", "beta", "bet", "b", "zeta",
    ];
    let mut sorted = names.to_vec();
    sorted.sort();
    let mut st = Store::new();
    let changes: Vec<Change> = sorted.iter().map(|n| add(&[n])).collect();
    let root = bssm::derive::derive(&mut st, &vec![], &changes).unwrap();
    assert_eq!(root.rollup as usize, 1 + names.len());
    assert_eq!(rollup_recount(&st, root), root.rollup);
    for n in names.iter() {
        assert_eq!(lookup(&st, root, &[n]), Some(Entry::File), "missing {}", n);
    }
    assert_eq!(lookup(&st, root, &["missing"]), None);
    assert_eq!(lookup(&st, root, &["alp"]), None);

    // update one key: the others stay, the counts stay exact
    let root2 = bssm::derive::derive(&mut st, &vec![root], &vec![del(&["apple"])]).unwrap();
    assert_eq!(root2.rollup as usize, names.len());
    assert_eq!(rollup_recount(&st, root2), root2.rollup);
    assert_eq!(lookup(&st, root2, &["apple"]), None);
    for n in names.iter().filter(|n| **n != "apple") {
        assert_eq!(lookup(&st, root2, &[n]), Some(Entry::File), "missing {}", n);
    }

    // rebuilding the same content finds the same addresses again
    let mut st3 = Store::new();
    let changes3: Vec<Change> = sorted.iter().map(|n| add(&[n])).collect();
    let root3 = bssm::derive::derive(&mut st3, &vec![], &changes3).unwrap();
    assert_eq!(root3.rollup, root.rollup);
}

#[test]
fn file_replaces_directory() {
    let mut st = Store::new();
    let parent = bssm::derive::derive(&mut st, &vec![], &vec![add(&["d", "inner"])]).unwrap();
    let root = bssm::derive::derive(&mut st, &vec![parent], &vec![add(&["d"])]).unwrap();
    assert_eq!(lookup(&st, root, &["d"]), Some(Entry::File));
    assert_eq!(lookup(&st, root, &["d", "inner"]), None);
    assert_eq!(root.rollup, 2);
    assert_eq!(rollup_recount(&st, root), 2);
}

#[test]
fn all_new_blobs_become_durable() {
    let mut st = Store::new();
    let root = bssm::derive::derive(&mut st, &vec![], &vec![add(&["a", "b"]), add(&["c"])]).unwrap();
    for id in 0..st.len() {
        assert!(st.is_durable(id), "blob {} not durable", id);
    }
    assert!(st.is_durable(root.id));
}

#[test]
fn no_change_derivation_reuses_the_root_address() {
    let mut st = Store::new();
    let parent = bssm::derive::derive(
        &mut st,
        &vec![],
        &vec![add(&["a"]), add(&["b", "c"]), add(&["b", "d"])],
    )
    .unwrap();
    let rebuilt = bssm::derive::derive(&mut st, &vec![parent], &vec![]).unwrap();
    assert_eq!(rebuilt.id, parent.id);
    assert_eq!(rebuilt.rollup, parent.rollup);
}

#[test]
fn same_content_same_address_across_histories() {
    // two different change histories ending in the same content meet at
    // the same root address
    let mut st = Store::new();
    let direct = bssm::derive::derive(&mut st, &vec![], &vec![add(&["x"]), add(&["y"])]).unwrap();
    let step1 = bssm::derive::derive(&mut st, &vec![], &vec![add(&["x"]), add(&["y"]), add(&["z"])])
        .unwrap();
    let step2 = bssm::derive::derive(&mut st, &vec![step1], &vec![del(&["z"])]).unwrap();
    assert_eq!(step2.id, direct.id);
    assert_eq!(step2.rollup, direct.rollup);
}

#[test]
fn deleting_a_missing_key_changes_nothing() {
    let mut st = Store::new();
    let parent = bssm::derive::derive(&mut st, &vec![], &vec![add(&["a"])]).unwrap();
    let root = bssm::derive::derive(&mut st, &vec![parent], &vec![del(&["ghostly"])]).unwrap();
    assert_eq!(root.id, parent.id);
    assert_eq!(root.rollup, parent.rollup);
}

#[test]
fn rebuilding_an_empty_parent_returns_it() {
    let mut st = Store::new();
    let empty = bssm::derive::derive(&mut st, &vec![], &vec![]).unwrap();
    let again = bssm::derive::derive(&mut st, &vec![empty], &vec![]).unwrap();
    assert_eq!(again.id, empty.id);
    assert_eq!(again.rollup, 1);
}

#[test]
fn deleting_below_a_plain_file_keeps_the_file() {
    let mut st = Store::new();
    let parent = bssm::derive::derive(&mut st, &vec![], &vec![add(&["a"])]).unwrap();
    let root = bssm::derive::derive(&mut st, &vec![parent], &vec![del(&["a", "b"])]).unwrap();
    assert_eq!(lookup(&st, root, &["a"]), Some(Entry::File));
    assert_eq!(root.id, parent.id);
}
